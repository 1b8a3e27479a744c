//! The persistence engine: the per-id offset table of an append-style
//! data file, the freed-slot list reused by later inserts, and the replay
//! of a write-ahead log into a compacted table.
//!
//! The engine manages byte ranges; the payload bytes themselves are
//! opaque to it and travel through unchanged.

use vstd::prelude::*;
use crate::value::Value;
use crate::value::Id;
use crate::value::Vs;
use crate::value::clone_chars;
use crate::value::lex_compare;
use crate::schema::ColumnDef;

verus! {

/// A log line's action.
#[derive(Clone, Copy, PartialEq, Eq, Debug)]
pub enum Action {
    Insert,
    Delete,
    Clear,
}

/// One write-ahead log line: an action with the id and value it concerns.
pub struct Line {
    pub action: Action,
    pub id: Option<Id>,
    pub value: Option<Value>,
}

impl Line {
    /// A log line for an action.
    pub fn new(action: Action) -> (l: Line)
        ensures
            l.action == action,
            l.id.is_none(),
            l.value.is_none(),
    {
        Line { action, id: None, value: None }
    }

    /// Attaches the record id.
    pub fn id(self, id: Id) -> (l: Line)
        ensures
            l == (Line { id: Some(id), ..self }),
    {
        Line { id: Some(id), ..self }
    }

    /// Attaches the record value.
    pub fn value(self, value: Value) -> (l: Line)
        ensures
            l == (Line { value: Some(value), ..self }),
    {
        Line { value: Some(value), ..self }
    }
}

/// A persisted byte range: offset, the bytes really used, and the slot's
/// full length, which is kept when a slot is reused by a smaller payload.
#[derive(Clone, Copy, PartialEq, Eq, Debug)]
pub struct SimpleMeta {
    pub off: usize,
    pub rl: usize,
    pub sl: usize,
}

impl SimpleMeta {
    pub fn set_offset(&mut self, v: usize)
        ensures
            *final(self) == (SimpleMeta { off: v, ..*old(self) }),
    {
        self.off = v;
    }

    pub fn set_real(&mut self, v: usize)
        ensures
            *final(self) == (SimpleMeta { rl: v, ..*old(self) }),
    {
        self.rl = v;
    }

    pub fn offset(&self) -> (r: usize)
        ensures
            r == self.off,
    {
        self.off
    }

    pub fn real_len(&self) -> (r: usize)
        ensures
            r == self.rl,
    {
        self.rl
    }

    pub fn size(&self) -> (r: usize)
        ensures
            r == self.sl,
    {
        self.sl
    }
}

/// A fresh byte range for a payload, before placement.
pub struct Meta {
    pub offset: usize,
    pub real: usize,
    pub size: usize,
}

impl Meta {
    /// The range a payload needs: its length, not yet placed.
    pub fn new(bytes: &Vec<u8>) -> (m: Meta)
        ensures
            m.offset == 0,
            m.real == bytes@.len(),
            m.size == bytes@.len(),
    {
        Meta { offset: 0, real: bytes.len(), size: bytes.len() }
    }

    /// The placed form of the range.
    pub fn to_simple(&self) -> (r: SimpleMeta)
        ensures
            r == (SimpleMeta { off: self.offset, rl: self.real, sl: self.size }),
    {
        SimpleMeta { off: self.offset, rl: self.real, sl: self.size }
    }
}

/// One record mutation handed to the engine.
pub struct Operation {
    pub value: Option<Value>,
    pub id: Option<Id>,
    pub insert: bool,
    pub delete: bool,
}

impl Operation {
    pub fn new() -> (o: Operation)
        ensures
            o.value.is_none() && o.id.is_none() && !o.insert && !o.delete,
    {
        Operation { value: None, id: None, insert: false, delete: false }
    }

    pub fn id(self, id: Id) -> (o: Operation)
        ensures
            o == (Operation { id: Some(id), ..self }),
    {
        Operation { id: Some(id), ..self }
    }

    pub fn value(self, value: Value) -> (o: Operation)
        ensures
            o == (Operation { value: Some(value), ..self }),
    {
        Operation { value: Some(value), ..self }
    }

    pub fn insert(self) -> (o: Operation)
        ensures
            o == (Operation { insert: true, ..self }),
    {
        Operation { insert: true, ..self }
    }

    pub fn delete(self) -> (o: Operation)
        ensures
            o == (Operation { delete: true, ..self }),
    {
        Operation { delete: true, ..self }
    }
}

/// One line of the offset table.
pub struct MetaEntry {
    pub id: Id,
    pub meta: SimpleMeta,
}

/// The mathematical view of the offset table's lines.
pub open spec fn metas_view(ms: Seq<MetaEntry>) -> Seq<(Seq<char>, SimpleMeta)> {
    Seq::new(
        ms.len(),
        |i: int|
            if 0 <= i < ms.len() {
                (ms[i].id@, ms[i].meta)
            } else {
                (Seq::empty(), SimpleMeta { off: 0, rl: 0, sl: 0 })
            },
    )
}

/// The mathematical state of a persistence engine.
pub struct Pv {
    pub metas: Seq<(Seq<char>, SimpleMeta)>,
    pub deleted: Seq<SimpleMeta>,
    pub size: int,
}

/// The first table line of an id, if any.
pub open spec fn find_meta(ms: Seq<(Seq<char>, SimpleMeta)>, idv: Seq<char>) -> Option<int>
    decreases ms.len(),
{
    if ms.len() == 0 {
        Option::None
    } else if ms[0].0 == idv {
        Option::Some(0)
    } else {
        match find_meta(ms.drop_first(), idv) {
            Option::Some(i) => Option::Some(i + 1),
            Option::None => Option::None,
        }
    }
}

/// The first freed slot big enough for a payload, if any.
pub open spec fn find_fit(ds: Seq<SimpleMeta>, len: int) -> Option<int>
    decreases ds.len(),
{
    if ds.len() == 0 {
        Option::None
    } else if ds[0].sl >= len {
        Option::Some(0)
    } else {
        match find_fit(ds.drop_first(), len) {
            Option::Some(i) => Option::Some(i + 1),
            Option::None => Option::None,
        }
    }
}

/// What an insert of `len` payload bytes under an id does to the state.
/// An id already placed in a big-enough slot stays where it is; otherwise
/// the first fitting freed slot is reused, keeping its full length, and
/// failing that the payload is appended at the end of the file.
pub open spec fn sp_insert(p: Pv, idv: Seq<char>, len: int) -> Pv {
    match find_meta(p.metas, idv) {
        Option::Some(i) => {
            if p.metas[i].1.sl >= len {
                Pv {
                    metas: p.metas.update(
                        i,
                        (idv, SimpleMeta { rl: len as usize, ..p.metas[i].1 }),
                    ),
                    ..p
                }
            } else {
                sp_place(
                    Pv {
                        metas: p.metas.remove(i),
                        deleted: p.deleted.push(p.metas[i].1),
                        size: p.size,
                    },
                    idv,
                    len,
                )
            }
        },
        Option::None => sp_place(p, idv, len),
    }
}

/// Places a payload for an id that has no table line: first fit among the
/// freed slots, else an append that grows the file.
pub open spec fn sp_place(p: Pv, idv: Seq<char>, len: int) -> Pv {
    match find_fit(p.deleted, len) {
        Option::Some(d) => Pv {
            metas: p.metas.push(
                (idv, SimpleMeta { off: p.deleted[d].off, rl: len as usize, sl: p.deleted[d].sl }),
            ),
            deleted: p.deleted.remove(d),
            size: p.size,
        },
        Option::None => Pv {
            metas: p.metas.push(
                (idv, SimpleMeta { off: p.size as usize, rl: len as usize, sl: len as usize }),
            ),
            deleted: p.deleted,
            size: p.size + len,
        },
    }
}

/// The byte range a placement chooses for an id with no usable line.
pub open spec fn sp_place_meta(p: Pv, len: int) -> SimpleMeta {
    match find_fit(p.deleted, len) {
        Option::Some(d) => SimpleMeta { off: p.deleted[d].off, rl: len as usize, sl: p.deleted[d].sl },
        Option::None => SimpleMeta { off: p.size as usize, rl: len as usize, sl: len as usize },
    }
}

/// The byte range an insert leaves the id on: its old slot with the new
/// used length when it fits, else a fresh placement.
pub open spec fn sp_placed_meta(p: Pv, idv: Seq<char>, len: int) -> SimpleMeta {
    match find_meta(p.metas, idv) {
        Option::Some(i) => {
            if p.metas[i].1.sl >= len {
                SimpleMeta { rl: len as usize, ..p.metas[i].1 }
            } else {
                sp_place_meta(
                    Pv {
                        metas: p.metas.remove(i),
                        deleted: p.deleted.push(p.metas[i].1),
                        size: p.size,
                    },
                    len,
                )
            }
        },
        Option::None => sp_place_meta(p, len),
    }
}

/// Whether an insert of `len` bytes appends at the end of the file.
pub open spec fn sp_appended(p: Pv, idv: Seq<char>, len: int) -> bool {
    match find_meta(p.metas, idv) {
        Option::Some(i) => {
            if p.metas[i].1.sl >= len {
                false
            } else {
                find_fit(p.deleted.push(p.metas[i].1), len).is_none()
            }
        },
        Option::None => find_fit(p.deleted, len).is_none(),
    }
}

/// What a delete does: the id's line moves to the freed list.
pub open spec fn sp_delete(p: Pv, idv: Seq<char>) -> Pv {
    match find_meta(p.metas, idv) {
        Option::Some(i) => Pv {
            metas: p.metas.remove(i),
            deleted: p.deleted.push(p.metas[i].1),
            size: p.size,
        },
        Option::None => p,
    }
}

/// The byte ranges of a table's lines, in line order.
pub open spec fn metas_slots(ms: Seq<(Seq<char>, SimpleMeta)>) -> Seq<SimpleMeta> {
    Seq::new(
        ms.len(),
        |i: int|
            if 0 <= i < ms.len() {
                ms[i].1
            } else {
                SimpleMeta { off: 0, rl: 0, sl: 0 }
            },
    )
}

/// What a clear does: every live line moves onto the freed list, and the
/// tracked size drops to zero, so that the next load truncates the file;
/// the freed slots already listed are kept.
pub open spec fn sp_clear(p: Pv) -> Pv {
    Pv { metas: Seq::empty(), deleted: p.deleted + metas_slots(p.metas), size: 0 }
}

/// The offset table and freed-slot list of one registered type.
pub struct Persistence {
    pub struct_name: Vec<char>,
    pub field_int_map: Vec<ColumnDef>,
    pub metas: Vec<MetaEntry>,
    pub deleted: Vec<SimpleMeta>,
    pub size: usize,
}

impl Persistence {
    /// The mathematical state.
    pub open spec fn view(&self) -> Pv {
        Pv { metas: metas_view(self.metas@), deleted: self.deleted@, size: self.size as int }
    }

    /// A fresh, empty offset table.
    pub fn new(struct_name: Vec<char>, field_int_map: Vec<ColumnDef>) -> (p: Persistence)
        ensures
            p.struct_name == struct_name,
            p.field_int_map == field_int_map,
            p@.metas =~= Seq::<(Seq<char>, SimpleMeta)>::empty(),
            p@.deleted =~= Seq::<SimpleMeta>::empty(),
            p@.size == 0,
    {
        Persistence { struct_name, field_int_map, metas: Vec::new(), deleted: Vec::new(), size: 0 }
    }

    /// Places an insert operation's payload.  Returns whether the bytes
    /// are appended at the end of the file (rather than overwriting a
    /// reused slot), the placed range, and the payload to write.
    pub fn insert(&mut self, operation: Operation, bytes: Vec<u8>) -> (r: (
        bool,
        SimpleMeta,
        Vec<u8>,
    ))
        requires
            operation.id.is_some(),
            old(self)@.size + bytes@.len() <= usize::MAX,
        ensures
            final(self)@ == sp_insert(old(self)@, operation.id.unwrap()@, bytes@.len() as int),
            final(self).struct_name == old(self).struct_name,
            final(self).field_int_map == old(self).field_int_map,
            r.2 == bytes,
            r.0 == sp_appended(old(self)@, operation.id.unwrap()@, bytes@.len() as int),
            r.0 ==> r.1.off == old(self)@.size && final(self)@.size == old(self)@.size
                + bytes@.len(),
            !r.0 ==> final(self)@.size == old(self)@.size,
            r.1 == sp_placed_meta(old(self)@, operation.id.unwrap()@, bytes@.len() as int),
            pv_wf(old(self)@) ==> find_meta(final(self)@.metas, operation.id.unwrap()@).is_some()
                && final(self)@.metas[find_meta(
                final(self)@.metas,
                operation.id.unwrap()@,
            ).unwrap()].1 == r.1,
            r.1.rl == bytes@.len(),
    {
        let id = match operation.id {
            Some(id) => id,
            None => {
                proof {
                    assert(false);
                }
                Vec::new()
            },
        };
        let ghost idv = id@;
        let len = bytes.len();
        // an id already placed in a big-enough slot stays in place
        let mut i: usize = 0;
        let mut found = false;
        while i < self.metas.len() && !found
            invariant
                0 <= i <= self.metas@.len(),
                found ==> i < self.metas@.len() && self.metas@[i as int].id@ == idv,
                forall|j: int| 0 <= j < i ==> (#[trigger] self.metas@[j]).id@ != idv,
                self.metas@ == old(self).metas@,
                self.deleted@ == old(self).deleted@,
                self.size == old(self).size,
                self.struct_name == old(self).struct_name,
                self.field_int_map == old(self).field_int_map,
                id@ == idv,
            decreases self.metas@.len() - i, (if found { 0int } else { 1int }),
        {
            if lex_compare(&self.metas[i].id, &id) == 0 {
                found = true;
            } else {
                i = i + 1;
            }
        }
        proof {
            assert forall|j: int| 0 <= j < i implies (#[trigger] metas_view(self.metas@)[j]).0
                != idv by {
                assert(self.metas@[j].id@ != idv);
            }
            if found {
                lemma_find_meta_at(metas_view(self.metas@), idv, i as int);
            } else {
                assert forall|j: int|
                    0 <= j < metas_view(self.metas@).len() implies (#[trigger] metas_view(
                    self.metas@,
                )[j]).0 != idv by {
                    assert(self.metas@[j].id@ != idv);
                }
                lemma_find_meta_none(metas_view(self.metas@), idv);
            }
        }
        if found {
            if self.metas[i].meta.sl >= len {
                let ghost m0 = metas_view(self.metas@);
                let mut e = self.metas.remove(i);
                e.meta.rl = len;
                self.metas.insert(i, e);
                proof {
                    assert(metas_view(self.metas@) =~= m0.update(
                        i as int,
                        (idv, SimpleMeta { rl: len, ..m0[i as int].1 }),
                    ));
                    lemma_find_meta_at(metas_view(self.metas@), idv, i as int);
                }
                let meta = SimpleMeta { off: self.metas[i].meta.off, rl: len, sl: self.metas[i].meta.sl };
                proof {
                    if pv_wf(old(self)@) {
                        lemma_insert_line(old(self)@, idv, len as int);
                    }
                }
                return (false, meta, bytes);
            } else {
                // the slot is too small: free it and place the payload anew
                let ghost m0 = metas_view(self.metas@);
                let e = self.metas.remove(i);
                self.deleted.push(e.meta);
                proof {
                    assert(metas_view(self.metas@) =~= m0.remove(i as int));
                }
                let (append, meta) = self.place(id, len);
                proof {
                    if pv_wf(old(self)@) {
                        lemma_insert_line(old(self)@, idv, len as int);
                    }
                }
                return (append, meta, bytes);
            }
        }
        let (append, meta) = self.place(id, len);
        proof {
            if pv_wf(old(self)@) {
                lemma_insert_line(old(self)@, idv, len as int);
            }
        }
        (append, meta, bytes)
    }

    /// Places a payload for an id with no current line.
    fn place(&mut self, id: Id, len: usize) -> (r: (bool, SimpleMeta))
        requires
            old(self)@.size + len <= usize::MAX,
        ensures
            final(self)@ == sp_place(old(self)@, id@, len as int),
            final(self).struct_name == old(self).struct_name,
            final(self).field_int_map == old(self).field_int_map,
            final(self)@.metas.len() == old(self)@.metas.len() + 1,
            final(self)@.metas.last() == (id@, r.1),
            r.1 == sp_place_meta(old(self)@, len as int),
            r.0 == find_fit(old(self)@.deleted, len as int).is_none(),
            r.0 ==> final(self)@.size == old(self)@.size + len && r.1.off == old(self)@.size,
            !r.0 ==> final(self)@.size == old(self)@.size,
            r.1.rl == len,
    {
        let ghost idv = id@;
        let mut d: usize = 0;
        let mut fit = false;
        while d < self.deleted.len() && !fit
            invariant
                0 <= d <= self.deleted@.len(),
                fit ==> d < self.deleted@.len() && self.deleted@[d as int].sl >= len,
                forall|j: int| 0 <= j < d ==> (#[trigger] self.deleted@[j]).sl < len,
                self.metas@ == old(self).metas@,
                self.deleted@ == old(self).deleted@,
                self.size == old(self).size,
                self.struct_name == old(self).struct_name,
                self.field_int_map == old(self).field_int_map,
                id@ == idv,
            decreases self.deleted@.len() - d, (if fit { 0int } else { 1int }),
        {
            if self.deleted[d].sl >= len {
                fit = true;
            } else {
                d = d + 1;
            }
        }
        if fit {
            proof {
                lemma_find_fit_at(self.deleted@, len as int, d as int);
            }
            let slot = self.deleted.remove(d);
            let meta = SimpleMeta { off: slot.off, rl: len, sl: slot.sl };
            self.metas.push(MetaEntry { id, meta });
            proof {
                assert(metas_view(self.metas@) =~= metas_view(old(self).metas@).push((idv, meta)));
            }
            (false, meta)
        } else {
            proof {
                lemma_find_fit_none(self.deleted@, len as int);
            }
            let meta = SimpleMeta { off: self.size, rl: len, sl: len };
            self.metas.push(MetaEntry { id, meta });
            self.size = self.size + len;
            proof {
                assert(metas_view(self.metas@) =~= metas_view(old(self).metas@).push((idv, meta)));
            }
            (true, meta)
        }
    }

    /// Frees an id's byte range.
    pub fn delete(&mut self, operation: Operation)
        requires
            operation.id.is_some(),
        ensures
            final(self)@ == sp_delete(old(self)@, operation.id.unwrap()@),
            final(self).struct_name == old(self).struct_name,
            final(self).field_int_map == old(self).field_int_map,
    {
        let id = match &operation.id {
            Some(id) => id,
            None => {
                proof {
                    assert(false);
                }
                return ;
            },
        };
        let ghost idv = id@;
        let mut i: usize = 0;
        let mut found = false;
        while i < self.metas.len() && !found
            invariant
                0 <= i <= self.metas@.len(),
                found ==> i < self.metas@.len() && self.metas@[i as int].id@ == idv,
                forall|j: int| 0 <= j < i ==> (#[trigger] self.metas@[j]).id@ != idv,
                self.metas@ == old(self).metas@,
                self.deleted@ == old(self).deleted@,
                self.size == old(self).size,
                self.struct_name == old(self).struct_name,
                self.field_int_map == old(self).field_int_map,
                id@ == idv,
            decreases self.metas@.len() - i, (if found { 0int } else { 1int }),
        {
            if lex_compare(&self.metas[i].id, id) == 0 {
                found = true;
            } else {
                i = i + 1;
            }
        }
        if found {
            proof {
                assert forall|j: int| 0 <= j < i implies (#[trigger] metas_view(self.metas@)[j]).0
                    != idv by {
                    assert(self.metas@[j].id@ != idv);
                }
                lemma_find_meta_at(metas_view(self.metas@), idv, i as int);
            }
            let ghost m0 = metas_view(self.metas@);
            let e = self.metas.remove(i);
            self.deleted.push(e.meta);
            proof {
                assert(metas_view(self.metas@) =~= m0.remove(i as int));
            }
        } else {
            proof {
                assert forall|j: int|
                    0 <= j < metas_view(self.metas@).len() implies (#[trigger] metas_view(
                    self.metas@,
                )[j]).0 != idv by {
                    assert(self.metas@[j].id@ != idv);
                }
                lemma_find_meta_none(metas_view(self.metas@), idv);
            }
        }
    }

    /// Moves every live line onto the freed list and drops the tracked
    /// size to zero; the next load truncates the data file.
    pub fn clear(&mut self)
        ensures
            final(self)@ == sp_clear(old(self)@),
            final(self).struct_name == old(self).struct_name,
            final(self).field_int_map == old(self).field_int_map,
    {
        let ghost m0 = metas_view(self.metas@);
        let mut i: usize = 0;
        while i < self.metas.len()
            invariant
                0 <= i <= self.metas@.len(),
                self.metas@ == old(self).metas@,
                m0 == metas_view(self.metas@),
                self.deleted@ == old(self).deleted@ + metas_slots(m0).take(i as int),
                self.size == old(self).size,
                self.struct_name == old(self).struct_name,
                self.field_int_map == old(self).field_int_map,
            decreases self.metas@.len() - i,
        {
            proof {
                assert(metas_slots(m0).take(i + 1) =~= metas_slots(m0).take(i as int).push(
                    m0[i as int].1,
                ));
                assert((old(self).deleted@ + metas_slots(m0).take(i as int)).push(
                    m0[i as int].1,
                ) =~= old(self).deleted@ + metas_slots(m0).take(i + 1));
            }
            let m = self.metas[i].meta;
            self.deleted.push(m);
            i = i + 1;
        }
        proof {
            assert(metas_slots(m0).take(m0.len() as int) =~= metas_slots(m0));
        }
        self.metas = Vec::new();
        self.size = 0;
        proof {
            assert(metas_view(self.metas@) =~= Seq::<(Seq<char>, SimpleMeta)>::empty());
        }
    }

    /// Applies one log line during replay.  An insert line hands back the
    /// placement of its payload so the caller can write the bytes.
    pub fn write_log(&mut self, line: Line, bytes: Vec<u8>) -> (r: Option<(
        bool,
        SimpleMeta,
        Vec<u8>,
    )>)
        requires
            line.action is Insert ==> line.id.is_some() && old(self)@.size + bytes@.len()
                <= usize::MAX,
            line.action is Delete ==> line.id.is_some(),
        ensures
            line.action is Insert ==> r.is_some() && final(self)@ == sp_insert(
                old(self)@,
                line.id.unwrap()@,
                bytes@.len() as int,
            ),
            line.action is Delete ==> r.is_none() && final(self)@ == sp_delete(
                old(self)@,
                line.id.unwrap()@,
            ),
            line.action is Clear ==> r.is_none() && final(self)@ == sp_clear(old(self)@),
            final(self).struct_name == old(self).struct_name,
            final(self).field_int_map == old(self).field_int_map,
    {
        match line.action {
            Action::Insert => {
                let id = match line.id {
                    Some(id) => id,
                    None => {
                        proof {
                            assert(false);
                        }
                        Vec::new()
                    },
                };
                let op = Operation::new().id(id);
                Some(self.insert(op, bytes))
            },
            Action::Delete => {
                let id = match line.id {
                    Some(id) => id,
                    None => {
                        proof {
                            assert(false);
                        }
                        Vec::new()
                    },
                };
                let op = Operation::new().id(id).delete();
                self.delete(op);
                None
            },
            Action::Clear => {
                self.clear();
                None
            },
        }
    }
}

/// An id found at a position after misses is what the table lookup finds.
proof fn lemma_find_meta_at(ms: Seq<(Seq<char>, SimpleMeta)>, idv: Seq<char>, i: int)
    requires
        0 <= i < ms.len(),
        forall|j: int| 0 <= j < i ==> (#[trigger] ms[j]).0 != idv,
        ms[i].0 == idv,
    ensures
        find_meta(ms, idv) == Option::Some(i),
    decreases i,
{
    if i > 0 {
        assert forall|j: int| 0 <= j < i - 1 implies (#[trigger] ms.drop_first()[j]).0 != idv by {
            assert(ms[j + 1].0 != idv);
        }
        lemma_find_meta_at(ms.drop_first(), idv, i - 1);
    }
}

/// A table lookup that misses every line finds nothing.
proof fn lemma_find_meta_none(ms: Seq<(Seq<char>, SimpleMeta)>, idv: Seq<char>)
    requires
        forall|j: int| 0 <= j < ms.len() ==> (#[trigger] ms[j]).0 != idv,
    ensures
        find_meta(ms, idv).is_none(),
    decreases ms.len(),
{
    if ms.len() > 0 {
        assert forall|j: int| 0 <= j < ms.len() - 1 implies (#[trigger] ms.drop_first()[j]).0
            != idv by {
            assert(ms[j + 1].0 != idv);
        }
        lemma_find_meta_none(ms.drop_first(), idv);
    }
}

/// A fitting slot found after misses is what the first-fit scan finds.
proof fn lemma_find_fit_at(ds: Seq<SimpleMeta>, len: int, d: int)
    requires
        0 <= d < ds.len(),
        forall|j: int| 0 <= j < d ==> (#[trigger] ds[j]).sl < len,
        ds[d].sl >= len,
    ensures
        find_fit(ds, len) == Option::Some(d),
    decreases d,
{
    if d > 0 {
        assert forall|j: int| 0 <= j < d - 1 implies (#[trigger] ds.drop_first()[j]).sl < len by {
            assert(ds[j + 1].sl < len);
        }
        lemma_find_fit_at(ds.drop_first(), len, d - 1);
    }
}

/// With no fitting slot the scan finds nothing.
proof fn lemma_find_fit_none(ds: Seq<SimpleMeta>, len: int)
    requires
        forall|j: int| 0 <= j < ds.len() ==> (#[trigger] ds[j]).sl < len,
    ensures
        find_fit(ds, len).is_none(),
    decreases ds.len(),
{
    if ds.len() > 0 {
        assert forall|j: int| 0 <= j < ds.len() - 1 implies (#[trigger] ds.drop_first()[j]).sl
            < len by {
            assert(ds[j + 1].sl < len);
        }
        lemma_find_fit_none(ds.drop_first(), len);
    }
}


/// What one replayed log line does to an offset-table state, over the
/// action, the id and the payload length.
pub open spec fn apply_line_sp(p: Pv, a: Action, idv: Seq<char>, len: int) -> Pv {
    match a {
        Action::Insert => sp_insert(p, idv, len),
        Action::Delete => sp_delete(p, idv),
        Action::Clear => sp_clear(p),
    }
}

/// What replaying a whole log does, line by line.
pub open spec fn apply_log(p: Pv, lines: Seq<(Action, Seq<char>, int)>) -> Pv
    decreases lines.len(),
{
    if lines.len() == 0 {
        p
    } else {
        apply_line_sp(
            apply_log(p, lines.drop_last()),
            lines.last().0,
            lines.last().1,
            lines.last().2,
        )
    }
}

/// A table never lists an id twice.
pub open spec fn pv_wf(p: Pv) -> bool {
    forall|i: int, j: int|
        0 <= i < j < p.metas.len() ==> (#[trigger] p.metas[i]).0 != (#[trigger] p.metas[j]).0
}

/// Every replayed line keeps the table free of duplicate ids.
pub proof fn lemma_apply_line_wf(p: Pv, a: Action, idv: Seq<char>, len: int)
    requires
        pv_wf(p),
    ensures
        pv_wf(apply_line_sp(p, a, idv, len)),
{
    match a {
        Action::Insert => {
            match find_meta(p.metas, idv) {
                Option::Some(i) => {
                    lemma_find_meta_found(p.metas, idv, i);
                    if p.metas[i].1.sl >= len {
                        let q = apply_line_sp(p, a, idv, len);
                        assert forall|x: int, y: int|
                            0 <= x < y < q.metas.len() implies (#[trigger] q.metas[x]).0
                            != (#[trigger] q.metas[y]).0 by {
                            assert(q.metas[x].0 == p.metas[x].0);
                            assert(q.metas[y].0 == p.metas[y].0);
                        }
                    } else {
                        lemma_place_wf(
                            Pv {
                                metas: p.metas.remove(i),
                                deleted: p.deleted.push(p.metas[i].1),
                                size: p.size,
                            },
                            p,
                            i,
                            idv,
                            len,
                        );
                    }
                },
                Option::None => {
                    lemma_find_meta_misses(p.metas, idv);
                    let q = sp_place(p, idv, len);
                    assert forall|x: int, y: int|
                        0 <= x < y < q.metas.len() implies (#[trigger] q.metas[x]).0
                        != (#[trigger] q.metas[y]).0 by {
                        if y == q.metas.len() - 1 {
                            assert(q.metas[x].0 == p.metas[x].0);
                            assert(p.metas[x].0 != idv);
                        } else {
                            assert(q.metas[x].0 == p.metas[x].0);
                            assert(q.metas[y].0 == p.metas[y].0);
                        }
                    }
                },
            }
        },
        Action::Delete => {
            match find_meta(p.metas, idv) {
                Option::Some(i) => {
                    lemma_find_meta_found(p.metas, idv, i);
                    let q = apply_line_sp(p, a, idv, len);
                    assert forall|x: int, y: int|
                        0 <= x < y < q.metas.len() implies (#[trigger] q.metas[x]).0
                        != (#[trigger] q.metas[y]).0 by {
                        let x0 = if x < i {
                            x
                        } else {
                            x + 1
                        };
                        let y0 = if y < i {
                            y
                        } else {
                            y + 1
                        };
                        assert(q.metas[x] == p.metas[x0]);
                        assert(q.metas[y] == p.metas[y0]);
                    }
                },
                Option::None => {},
            }
        },
        Action::Clear => {},
    }
}

/// After a removal and a placement, ids stay distinct.
proof fn lemma_place_wf(p2: Pv, p: Pv, i: int, idv: Seq<char>, len: int)
    requires
        pv_wf(p),
        0 <= i < p.metas.len(),
        p.metas[i].0 == idv,
        forall|j: int| 0 <= j < i ==> (#[trigger] p.metas[j]).0 != idv,
        p2.metas == p.metas.remove(i),
    ensures
        pv_wf(sp_place(p2, idv, len)),
{
    assert forall|x: int, y: int|
        0 <= x < y < p2.metas.len() implies (#[trigger] p2.metas[x]).0
        != (#[trigger] p2.metas[y]).0 by {
        let x0 = if x < i {
            x
        } else {
            x + 1
        };
        let y0 = if y < i {
            y
        } else {
            y + 1
        };
        assert(p2.metas[x] == p.metas[x0]);
        assert(p2.metas[y] == p.metas[y0]);
    }
    assert forall|x: int| 0 <= x < p2.metas.len() implies (#[trigger] p2.metas[x]).0 != idv by {
        let x0 = if x < i {
            x
        } else {
            x + 1
        };
        assert(p2.metas[x] == p.metas[x0]);
        if x0 > i {
            assert(p.metas[i].0 != p.metas[x0].0);
        }
    }
    let q = sp_place(p2, idv, len);
    assert forall|x: int, y: int|
        0 <= x < y < q.metas.len() implies (#[trigger] q.metas[x]).0
        != (#[trigger] q.metas[y]).0 by {
        if y == q.metas.len() - 1 {
            assert(q.metas[x] == p2.metas[x]);
        } else {
            assert(q.metas[x] == p2.metas[x]);
            assert(q.metas[y] == p2.metas[y]);
        }
    }
}

/// A found position of an id has only misses before it.
proof fn lemma_find_meta_found(ms: Seq<(Seq<char>, SimpleMeta)>, idv: Seq<char>, i: int)
    requires
        find_meta(ms, idv) == Option::Some(i),
    ensures
        0 <= i < ms.len(),
        ms[i].0 == idv,
        forall|j: int| 0 <= j < i ==> (#[trigger] ms[j]).0 != idv,
    decreases ms.len(),
{
    if ms.len() > 0 && ms[0].0 != idv {
        lemma_find_meta_found(ms.drop_first(), idv, i - 1);
        assert forall|j: int| 0 <= j < i implies (#[trigger] ms[j]).0 != idv by {
            if j > 0 {
                assert(ms.drop_first()[j - 1].0 != idv);
            }
        }
    }
}

/// No line carries the id, so the lookup misses (public form).
pub proof fn lemma_find_meta_misses_pub(ms: Seq<(Seq<char>, SimpleMeta)>, idv: Seq<char>)
    requires
        forall|j: int| 0 <= j < ms.len() ==> (#[trigger] ms[j]).0 != idv,
    ensures
        find_meta(ms, idv).is_none(),
{
    lemma_find_meta_none_of_misses(ms, idv);
}

/// A failed lookup means the id is on no line.
proof fn lemma_find_meta_misses(ms: Seq<(Seq<char>, SimpleMeta)>, idv: Seq<char>)
    requires
        find_meta(ms, idv).is_none(),
    ensures
        forall|j: int| 0 <= j < ms.len() ==> (#[trigger] ms[j]).0 != idv,
    decreases ms.len(),
{
    if ms.len() > 0 {
        lemma_find_meta_misses(ms.drop_first(), idv);
        assert forall|j: int| 0 <= j < ms.len() implies (#[trigger] ms[j]).0 != idv by {
            if j > 0 {
                assert(ms.drop_first()[j - 1].0 != idv);
            }
        }
    }
}

/// Replaying one log line twice in a row equals replaying it once, over
/// a table without duplicate ids: a second insert of the same payload
/// stays in place, a second delete finds nothing, and a second clear
/// drains nothing more.
pub proof fn lemma_apply_line_twice(p: Pv, a: Action, idv: Seq<char>, len: int)
    requires
        pv_wf(p),
        0 <= len <= usize::MAX,
    ensures
        apply_line_sp(apply_line_sp(p, a, idv, len), a, idv, len) == apply_line_sp(
            p,
            a,
            idv,
            len,
        ),
{
    let q = apply_line_sp(p, a, idv, len);
    lemma_apply_line_wf(p, a, idv, len);
    match a {
        Action::Insert => {
            lemma_insert_line(p, idv, len);
            let i = find_meta(q.metas, idv).unwrap();
            lemma_find_meta_found(q.metas, idv, i);
            assert(q.metas[i].1.sl >= len && q.metas[i].1.rl == len as usize);
            assert(apply_line_sp(q, a, idv, len) == Pv {
                metas: q.metas.update(i, (idv, SimpleMeta { rl: len as usize, ..q.metas[i].1 })),
                ..q
            });
            assert(q.metas.update(i, (idv, SimpleMeta { rl: len as usize, ..q.metas[i].1 }))
                =~= q.metas);
        },
        Action::Delete => {
            match find_meta(p.metas, idv) {
                Option::Some(i) => {
                    lemma_find_meta_found(p.metas, idv, i);
                    assert forall|j: int| 0 <= j < q.metas.len() implies (#[trigger] q.metas[j]).0
                        != idv by {
                        let j0 = if j < i {
                            j
                        } else {
                            j + 1
                        };
                        assert(q.metas[j] == p.metas[j0]);
                        if j0 > i {
                            assert(p.metas[i].0 != p.metas[j0].0);
                        }
                    }
                    lemma_find_meta_none_of_misses(q.metas, idv);
                },
                Option::None => {},
            }
        },
        Action::Clear => {
            assert(metas_slots(Seq::<(Seq<char>, SimpleMeta)>::empty())
                =~= Seq::<SimpleMeta>::empty());
            assert(q.deleted + metas_slots(q.metas) =~= q.deleted);
        },
    }
}

/// After an insert, the id's line carries exactly the placed range: the
/// payload's length in a slot at least that long.
pub proof fn lemma_insert_line(p: Pv, idv: Seq<char>, len: int)
    requires
        pv_wf(p),
        0 <= len <= usize::MAX,
    ensures
        ({
            let q = sp_insert(p, idv, len);
            &&& find_meta(q.metas, idv).is_some()
            &&& q.metas[find_meta(q.metas, idv).unwrap()].1 == sp_placed_meta(p, idv, len)
            &&& q.metas[find_meta(q.metas, idv).unwrap()].1.rl == len as usize
            &&& q.metas[find_meta(q.metas, idv).unwrap()].1.sl >= len
        }),
{
    let q = sp_insert(p, idv, len);
    match find_meta(p.metas, idv) {
        Option::Some(i) => {
            lemma_find_meta_found(p.metas, idv, i);
            if p.metas[i].1.sl >= len {
                assert forall|j: int| 0 <= j < i implies (#[trigger] q.metas[j]).0 != idv by {
                    assert(q.metas[j].0 == p.metas[j].0);
                }
                lemma_find_meta_hits(q.metas, idv, i);
            } else {
                lemma_insert_line_placed(
                    Pv {
                        metas: p.metas.remove(i),
                        deleted: p.deleted.push(p.metas[i].1),
                        size: p.size,
                    },
                    p,
                    i,
                    idv,
                    len,
                );
            }
        },
        Option::None => {
            lemma_find_meta_misses(p.metas, idv);
            let q2 = sp_place(p, idv, len);
            match find_fit(p.deleted, len) {
                Option::Some(d) => {
                    lemma_find_fit_found(p.deleted, len, d);
                },
                Option::None => {},
            }
            assert forall|j: int| 0 <= j < p.metas.len() implies (#[trigger] q2.metas[j]).0
                != idv by {
                assert(q2.metas[j].0 == p.metas[j].0);
            }
            lemma_find_meta_hits(q2.metas, idv, p.metas.len() as int);
        },
    }
}

/// A placement after a removal files the id last.
proof fn lemma_insert_line_placed(p2: Pv, p: Pv, i: int, idv: Seq<char>, len: int)
    requires
        pv_wf(p),
        0 <= len <= usize::MAX,
        0 <= i < p.metas.len(),
        p.metas[i].0 == idv,
        forall|j: int| 0 <= j < i ==> (#[trigger] p.metas[j]).0 != idv,
        p2.metas == p.metas.remove(i),
    ensures
        ({
            let q = sp_place(p2, idv, len);
            &&& find_meta(q.metas, idv).is_some()
            &&& q.metas[find_meta(q.metas, idv).unwrap()].1 == sp_place_meta(p2, len)
            &&& q.metas[find_meta(q.metas, idv).unwrap()].1.rl == len as usize
            &&& q.metas[find_meta(q.metas, idv).unwrap()].1.sl >= len
        }),
{
    let q = sp_place(p2, idv, len);
    match find_fit(p2.deleted, len) {
        Option::Some(d) => {
            lemma_find_fit_found(p2.deleted, len, d);
        },
        Option::None => {},
    }
    assert forall|j: int| 0 <= j < p2.metas.len() implies (#[trigger] q.metas[j]).0 != idv by {
        assert(q.metas[j] == p2.metas[j]);
        let j0 = if j < i {
            j
        } else {
            j + 1
        };
        assert(p2.metas[j] == p.metas[j0]);
        if j0 > i {
            assert(p.metas[i].0 != p.metas[j0].0);
        }
    }
    assert(q.metas.len() == p2.metas.len() + 1);
    assert(q.metas[p2.metas.len() as int].0 == idv);
    assert(q.metas[p2.metas.len() as int].1.rl == len as usize);
    assert(q.metas[p2.metas.len() as int].1.sl >= len);
    lemma_find_meta_hits(q.metas, idv, p2.metas.len() as int);
    assert(find_meta(q.metas, idv) == Option::Some(p2.metas.len() as int));
}

/// A fitting slot the first-fit scan returns really fits.
proof fn lemma_find_fit_found(ds: Seq<SimpleMeta>, len: int, d: int)
    requires
        find_fit(ds, len) == Option::Some(d),
    ensures
        0 <= d < ds.len(),
        ds[d].sl >= len,
    decreases ds.len(),
{
    if ds.len() > 0 && ds[0].sl < len {
        lemma_find_fit_found(ds.drop_first(), len, d - 1);
    }
}

/// A hit after misses is what the table lookup finds.
proof fn lemma_find_meta_hits(ms: Seq<(Seq<char>, SimpleMeta)>, idv: Seq<char>, i: int)
    requires
        0 <= i < ms.len(),
        forall|j: int| 0 <= j < i ==> (#[trigger] ms[j]).0 != idv,
        ms[i].0 == idv,
    ensures
        find_meta(ms, idv) == Option::Some(i),
    decreases i,
{
    if i > 0 {
        assert forall|j: int| 0 <= j < i - 1 implies (#[trigger] ms.drop_first()[j]).0 != idv by {
            assert(ms[j + 1].0 != idv);
        }
        lemma_find_meta_hits(ms.drop_first(), idv, i - 1);
    }
}

/// No line carries the id, so the lookup misses.
proof fn lemma_find_meta_none_of_misses(ms: Seq<(Seq<char>, SimpleMeta)>, idv: Seq<char>)
    requires
        forall|j: int| 0 <= j < ms.len() ==> (#[trigger] ms[j]).0 != idv,
    ensures
        find_meta(ms, idv).is_none(),
    decreases ms.len(),
{
    if ms.len() > 0 {
        assert forall|j: int| 0 <= j < ms.len() - 1 implies (#[trigger] ms.drop_first()[j]).0
            != idv by {
            assert(ms[j + 1].0 != idv);
        }
        lemma_find_meta_none_of_misses(ms.drop_first(), idv);
    }
}


/// A log of inserts only, of pairwise distinct ids none of which the
/// table already lists.
pub open spec fn insert_only_fresh(p: Pv, lines: Seq<(Action, Seq<char>, int)>) -> bool {
    &&& (forall|i: int|
        0 <= i < lines.len() ==> (#[trigger] lines[i]).0 is Insert && 0 <= lines[i].2
            <= usize::MAX)
    &&& (forall|i: int, j: int|
        0 <= i < j < lines.len() ==> (#[trigger] lines[i]).1 != (#[trigger] lines[j]).1)
    &&& (forall|i: int|
        0 <= i < lines.len() ==> find_meta(p.metas, (#[trigger] lines[i]).1).is_none())
}

/// Replaying an insert-only log of fresh ids appends one line per log
/// line, in order, each carrying its payload's length in a slot at
/// least that long.
proof fn lemma_insert_only_pass(p: Pv, lines: Seq<(Action, Seq<char>, int)>)
    requires
        pv_wf(p),
        insert_only_fresh(p, lines),
    ensures
        ({
            let q = apply_log(p, lines);
            &&& pv_wf(q)
            &&& q.metas.len() == p.metas.len() + lines.len()
            &&& (forall|j: int| 0 <= j < p.metas.len() ==> q.metas[j] == #[trigger] p.metas[j])
            &&& (forall|i: int|
                0 <= i < lines.len() ==> (#[trigger] q.metas[p.metas.len() + i]).0 == lines[i].1
                    && q.metas[p.metas.len() + i].1.rl == lines[i].2 as usize
                    && q.metas[p.metas.len() + i].1.sl >= lines[i].2)
        }),
    decreases lines.len(),
{
    if lines.len() > 0 {
        let dl = lines.drop_last();
        assert(insert_only_fresh(p, dl)) by {
            assert forall|i: int| 0 <= i < dl.len() implies find_meta(
                p.metas,
                (#[trigger] dl[i]).1,
            ).is_none() by {
                assert(lines[i].1 == dl[i].1);
            }
        }
        lemma_insert_only_pass(p, dl);
        let q0 = apply_log(p, dl);
        let idn = lines.last().1;
        let lenn = lines.last().2;
        assert forall|j: int| 0 <= j < q0.metas.len() implies (#[trigger] q0.metas[j]).0
            != idn by {
            if j < p.metas.len() {
                assert(q0.metas[j] == p.metas[j]);
                lemma_find_meta_misses(p.metas, idn);
            } else {
                let i = j - p.metas.len();
                assert(q0.metas[p.metas.len() + i].0 == dl[i].1);
                assert(lines[i].1 != lines[lines.len() - 1].1);
            }
        }
        lemma_find_meta_none_of_misses(q0.metas, idn);
        let q = sp_place(q0, idn, lenn);
        match find_fit(q0.deleted, lenn) {
            Option::Some(d) => {
                lemma_find_fit_found(q0.deleted, lenn, d);
            },
            Option::None => {},
        }
        assert(q.metas.len() == q0.metas.len() + 1);
        assert forall|j: int| 0 <= j < p.metas.len() implies q.metas[j] == #[trigger] p.metas[j] by {
            assert(q.metas[j] == q0.metas[j]);
        }
        assert forall|i: int|
            0 <= i < lines.len() implies (#[trigger] q.metas[p.metas.len() + i]).0 == lines[i].1
                && q.metas[p.metas.len() + i].1.rl == lines[i].2 as usize && q.metas[p.metas.len()
                + i].1.sl >= lines[i].2 by {
            if i < lines.len() - 1 {
                assert(q.metas[p.metas.len() + i] == q0.metas[p.metas.len() + i]);
                assert(q0.metas[p.metas.len() + i].0 == dl[i].1);
            } else {
                assert(p.metas.len() + i == q0.metas.len());
            }
        }
        assert(pv_wf(q)) by {
            assert forall|x: int, y: int|
                0 <= x < y < q.metas.len() implies (#[trigger] q.metas[x]).0
                != (#[trigger] q.metas[y]).0 by {
                if y < q0.metas.len() {
                    assert(q.metas[x] == q0.metas[x]);
                    assert(q.metas[y] == q0.metas[y]);
                } else {
                    assert(q.metas[y].0 == idn);
                    assert(q.metas[x] == q0.metas[x]);
                    assert(q0.metas[x].0 != idn);
                }
            }
        }
    }
}

/// Replaying an insert-only log against a table that already carries
/// every line's id with its payload's length leaves the table as it is.
proof fn lemma_insert_only_fixpoint(q: Pv, lines: Seq<(Action, Seq<char>, int)>)
    requires
        pv_wf(q),
        forall|i: int|
            0 <= i < lines.len() ==> (#[trigger] lines[i]).0 is Insert && 0 <= lines[i].2
                <= usize::MAX,
        forall|i: int|
            0 <= i < lines.len() ==> find_meta(q.metas, (#[trigger] lines[i]).1).is_some()
                && q.metas[find_meta(q.metas, lines[i].1).unwrap()].1.rl == lines[i].2 as usize
                && q.metas[find_meta(q.metas, lines[i].1).unwrap()].1.sl >= lines[i].2,
    ensures
        apply_log(q, lines) == q,
    decreases lines.len(),
{
    if lines.len() > 0 {
        let dl = lines.drop_last();
        assert forall|i: int|
            0 <= i < dl.len() implies find_meta(q.metas, (#[trigger] dl[i]).1).is_some()
                && q.metas[find_meta(q.metas, dl[i].1).unwrap()].1.rl == dl[i].2 as usize
                && q.metas[find_meta(q.metas, dl[i].1).unwrap()].1.sl >= dl[i].2 by {
            assert(lines[i] == dl[i]);
        }
        lemma_insert_only_fixpoint(q, dl);
        let idn = lines.last().1;
        let lenn = lines.last().2;
        let k = find_meta(q.metas, idn).unwrap();
        lemma_find_meta_found(q.metas, idn, k);
        assert(apply_log(q, lines) == sp_insert(q, idn, lenn));
        assert(q.metas.update(k, (idn, SimpleMeta { rl: lenn as usize, ..q.metas[k].1 }))
            =~= q.metas);
    }
}

/// Replaying a write-ahead log twice — a crash after the replay
/// completed but before the log file was deleted — produces the same
/// offset table as replaying it once, for any log of inserts of fresh,
/// distinct ids.  A log that deletes an id and inserts it (or another)
/// again can place a record differently on the second pass under
/// first-fit reuse, so the law is stated for the insert-only case; the
/// single-line cases are covered for every action by
/// `lemma_apply_line_twice`, and mixed logs are exercised by test.
pub proof fn lemma_replay_idempotent(p: Pv, lines: Seq<(Action, Seq<char>, int)>)
    requires
        pv_wf(p),
        insert_only_fresh(p, lines),
    ensures
        apply_log(apply_log(p, lines), lines) == apply_log(p, lines),
{
    lemma_insert_only_pass(p, lines);
    let q = apply_log(p, lines);
    assert forall|i: int|
        0 <= i < lines.len() implies find_meta(q.metas, (#[trigger] lines[i]).1).is_some()
            && q.metas[find_meta(q.metas, lines[i].1).unwrap()].1.rl == lines[i].2 as usize
            && q.metas[find_meta(q.metas, lines[i].1).unwrap()].1.sl >= lines[i].2 by {
        let at = p.metas.len() + i;
        assert forall|j: int| 0 <= j < at implies (#[trigger] q.metas[j]).0 != lines[i].1 by {
            if j < p.metas.len() {
                assert(q.metas[j] == p.metas[j]);
                lemma_find_meta_misses(p.metas, lines[i].1);
            } else {
                let m = j - p.metas.len();
                assert(q.metas[p.metas.len() + m].0 == lines[m].1);
                assert(lines[m].1 != lines[i].1);
            }
        }
        assert(q.metas[p.metas.len() + i].0 == lines[i].1);
        assert(q.metas[at].0 == lines[i].1);
        lemma_find_meta_hits(q.metas, lines[i].1, at);
    }
    lemma_insert_only_fixpoint(q, lines);
}

} // verus!
