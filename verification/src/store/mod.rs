//! The explicitly passed store context: one lock-free entry per
//! registered type, created on registration, plus the process
//! configuration.

use vstd::prelude::*;
use crate::value::Id;
use crate::value::clone_chars;
use crate::value::lex_compare;
use crate::memory::Memory;
use crate::schema::Schema;

verus! {

/// The configuration surface: whether mutations are journalled, and the
/// root storage directory.
pub struct Config {
    pub persistence: bool,
    pub path: Vec<char>,
}

impl Config {
    /// The defaults: persistence on, under the store's own directory.
    pub fn new() -> (c: Config)
        ensures
            c.persistence,
    {
        let mut path: Vec<char> = Vec::new();
        path.push('a');
        path.push('r');
        path.push('t');
        path.push('h');
        path.push('a');
        path.push('s');
        path.push('.');
        path.push('a');
        path.push('r');
        Config { persistence: true, path }
    }
}

/// One registered type's entry.
pub struct MemoryEntry {
    pub name: Vec<char>,
    pub memory: Memory,
}

/// The store context: every registered type's in-memory state, owned and
/// passed explicitly by the embedding process.
pub struct Store {
    pub memories: Vec<MemoryEntry>,
    pub config: Config,
}

/// The position of a registered type's entry, if any.
pub open spec fn entry_idx(mems: Seq<MemoryEntry>, name: Seq<char>) -> Option<int>
    decreases mems.len(),
{
    if mems.len() == 0 {
        Option::None
    } else if mems[0].name@ == name {
        Option::Some(0)
    } else {
        match entry_idx(mems.drop_first(), name) {
            Option::Some(i) => Option::Some(i + 1),
            Option::None => Option::None,
        }
    }
}

/// A hit after misses is the entry the lookup finds.
pub proof fn lemma_entry_idx_hits(mems: Seq<MemoryEntry>, name: Seq<char>, i: int)
    requires
        0 <= i < mems.len(),
        forall|j: int| 0 <= j < i ==> (#[trigger] mems[j]).name@ != name,
        mems[i].name@ == name,
    ensures
        entry_idx(mems, name) == Option::Some(i),
    decreases i,
{
    if i > 0 {
        assert forall|j: int| 0 <= j < i - 1 implies (#[trigger] mems.drop_first()[j]).name@
            != name by {
            assert(mems[j + 1].name@ != name);
        }
        lemma_entry_idx_hits(mems.drop_first(), name, i - 1);
    }
}

/// A lookup that misses every entry finds nothing.
pub proof fn lemma_entry_idx_misses(mems: Seq<MemoryEntry>, name: Seq<char>)
    requires
        forall|j: int| 0 <= j < mems.len() ==> (#[trigger] mems[j]).name@ != name,
    ensures
        entry_idx(mems, name).is_none(),
    decreases mems.len(),
{
    if mems.len() > 0 {
        assert forall|j: int| 0 <= j < mems.len() - 1 implies (#[trigger] mems.drop_first()[j]).name@
            != name by {
            assert(mems[j + 1].name@ != name);
        }
        lemma_entry_idx_misses(mems.drop_first(), name);
    }
}

/// What a found position carries.
pub proof fn lemma_entry_idx_found(mems: Seq<MemoryEntry>, name: Seq<char>, i: int)
    requires
        entry_idx(mems, name) == Option::Some(i),
    ensures
        0 <= i < mems.len(),
        mems[i].name@ == name,
    decreases mems.len(),
{
    if mems.len() > 0 && mems[0].name@ != name {
        lemma_entry_idx_found(mems.drop_first(), name, i - 1);
    }
}

impl Store {
    /// A fresh, empty store.
    pub fn new() -> (s: Store)
        ensures
            s.memories@.len() == 0,
            s.config.persistence,
    {
        Store { memories: Vec::new(), config: Config::new() }
    }

    /// Turns journalling on or off for types registered afterwards.
    pub fn persistence(&mut self, on: bool)
        ensures
            final(self).config.persistence == on,
            final(self).memories == old(self).memories,
    {
        self.config.persistence = on;
    }

    /// Sets the root storage directory.
    pub fn path(&mut self, path: Vec<char>)
        ensures
            final(self).config.path == path,
            final(self).memories == old(self).memories,
            final(self).config.persistence == old(self).config.persistence,
    {
        self.config.path = path;
    }

    /// Whether mutations are journalled.
    pub fn is_persistence(&self) -> (r: bool)
        ensures
            r == self.config.persistence,
    {
        self.config.persistence
    }

    /// The root storage directory.
    pub fn get_path(&self) -> (r: &Vec<char>)
        ensures
            r == &self.config.path,
    {
        &self.config.path
    }

    /// The path of one of a type's files: `root/name.ext`.
    pub fn get_extension_path(&self, struct_name: &Vec<char>, ext: &Vec<char>) -> (r: Vec<char>)
        ensures
            r@ == self.config.path@ + seq!['/'] + struct_name@ + seq!['.'] + ext@,
    {
        let mut r = clone_chars(&self.config.path);
        r.push('/');
        let mut i: usize = 0;
        while i < struct_name.len()
            invariant
                0 <= i <= struct_name@.len(),
                r@ == self.config.path@ + seq!['/'] + struct_name@.take(i as int),
            decreases struct_name@.len() - i,
        {
            proof {
                assert((self.config.path@ + seq!['/'] + struct_name@.take(i as int)).push(
                    struct_name@[i as int],
                ) =~= self.config.path@ + seq!['/'] + struct_name@.take(i + 1));
            }
            r.push(struct_name[i]);
            i = i + 1;
        }
        proof {
            assert(struct_name@.take(struct_name@.len() as int) =~= struct_name@);
        }
        r.push('.');
        let mut j: usize = 0;
        while j < ext.len()
            invariant
                0 <= j <= ext@.len(),
                r@ == self.config.path@ + seq!['/'] + struct_name@ + seq!['.'] + ext@.take(
                    j as int,
                ),
            decreases ext@.len() - j,
        {
            proof {
                assert((self.config.path@ + seq!['/'] + struct_name@ + seq!['.'] + ext@.take(
                    j as int,
                )).push(ext@[j as int]) =~= self.config.path@ + seq!['/'] + struct_name@
                    + seq!['.'] + ext@.take(j + 1));
            }
            r.push(ext[j]);
            j = j + 1;
        }
        proof {
            assert(ext@.take(ext@.len() as int) =~= ext@);
        }
        r
    }

    /// Registers a type: its entry is created on first registration with
    /// the journalling the configuration holds at that moment; a type
    /// already registered is left untouched.
    pub fn register(&mut self, schema: Schema)
        ensures
            final(self).config == old(self).config,
            entry_idx(old(self).memories@, schema.spec_struct_name()).is_some()
                ==> final(self).memories@ == old(self).memories@,
            entry_idx(old(self).memories@, schema.spec_struct_name()).is_none() ==> {
                &&& final(self).memories@.len() == old(self).memories@.len() + 1
                &&& (forall|j: int|
                    0 <= j < old(self).memories@.len() ==> final(self).memories@[j]
                        == old(self).memories@[j])
                &&& final(self).memories@.last().name@ == schema.spec_struct_name()
                &&& final(self).memories@.last().memory.items() =~= Seq::<
                    (Seq<char>, crate::value::Vs),
                >::empty()
                &&& final(self).memories@.last().memory.journal_len() == 0
                &&& final(self).memories@.last().memory.spec_schema() == schema
                &&& final(self).memories@.last().memory.spec_persist()
                    == old(self).config.persistence
            },
    {
        let name = clone_chars(schema.struct_name());
        let mut s: usize = 0;
        let mut found = false;
        while s < self.memories.len() && !found
            invariant
                name@ == schema.spec_struct_name(),
                0 <= s <= self.memories@.len(),
                self.memories@ == old(self).memories@,
                self.config == old(self).config,
                found ==> s < self.memories@.len() && self.memories@[s as int].name@ == name@,
                forall|j: int| 0 <= j < s ==> (#[trigger] self.memories@[j]).name@ != name@,
            decreases self.memories@.len() - s, (if found { 0int } else { 1int }),
        {
            if lex_compare(&self.memories[s].name, &name) == 0 {
                found = true;
            } else {
                s = s + 1;
            }
        }
        proof {
            if found {
                lemma_entry_idx_hits(self.memories@, name@, s as int);
            } else {
                lemma_entry_idx_misses(self.memories@, name@);
            }
        }
        if !found {
            let persist = self.config.persistence;
            let m = Memory::new(schema, persist);
            self.memories.push(MemoryEntry { name, memory: m });
        }
    }

    /// The position of a registered type's entry.
    pub fn entry_pos(&self, struct_name: &Vec<char>) -> (r: Option<usize>)
        ensures
            r.is_some() == entry_idx(self.memories@, struct_name@).is_some(),
            r.is_some() ==> Option::Some(r.unwrap() as int) == entry_idx(
                self.memories@,
                struct_name@,
            ) && r.unwrap() < self.memories@.len() && self.memories@[r.unwrap() as int].name@
                == struct_name@,
    {
        let mut s: usize = 0;
        while s < self.memories.len()
            invariant
                0 <= s <= self.memories@.len(),
                forall|j: int| 0 <= j < s ==> (#[trigger] self.memories@[j]).name@ != struct_name@,
            decreases self.memories@.len() - s,
        {
            if lex_compare(&self.memories[s].name, struct_name) == 0 {
                proof {
                    lemma_entry_idx_hits(self.memories@, struct_name@, s as int);
                }
                return Some(s);
            }
            s = s + 1;
        }
        proof {
            lemma_entry_idx_misses(self.memories@, struct_name@);
        }
        None
    }

    /// The entry of a registered type.
    pub fn get_memory(&self, struct_name: &Vec<char>) -> (r: Option<&Memory>)
        ensures
            r.is_some() == entry_idx(self.memories@, struct_name@).is_some(),
            r.is_some() ==> *r.unwrap() == self.memories@[entry_idx(
                self.memories@,
                struct_name@,
            ).unwrap()].memory,
    {
        match self.entry_pos(struct_name) {
            Some(s) => Some(&self.memories[s].memory),
            None => None,
        }
    }

    /// The entry of a registered type, for mutation.  Callers needing an
    /// exact relation between the store before and after use
    /// [`Store::entry_pos`] and reach the entry by position instead.
    pub fn get_memory_mut(&mut self, struct_name: &Vec<char>) -> (r: Option<&mut Memory>)
        ensures
            r.is_some() == entry_idx(old(self).memories@, struct_name@).is_some(),
            r.is_none() ==> *final(self) == *old(self),
    {
        let pos = self.entry_pos(struct_name);
        match pos {
            Some(s) => {
                proof {
                    lemma_entry_idx_found(old(self).memories@, struct_name@, s as int);
                }
                let entry = &mut self.memories[s];
                Some(&mut entry.memory)
            },
            None => None,
        }
    }
}

} // verus!
