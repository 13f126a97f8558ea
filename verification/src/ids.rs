//! Identifiers for objects in the underlying version-control store, and a
//! table of the commit metadata that the stack logic reads.
//!
//! The store itself lives outside this crate. A commit is presented to the
//! verified core as a plain handle (`Oid`) together with the two facts the
//! stack logic ever reads of it: its first parent and its tree. The driver
//! registers that metadata in a [`CommitTable`] before invoking the logic.

use vstd::prelude::*;

use crate::error::Error;

verus! {

/// Handle for a commit or tree object in the object store.
///
/// The driver keeps a bijection between these handles and the store's real
/// object identifiers; the verified core only ever compares them.
#[derive(Clone, Copy, Debug, PartialEq, Eq, Structural)]
pub struct Oid {
    pub v: u64,
}

impl Oid {
    pub fn new(v: u64) -> (r: Oid)
        ensures
            r.v == v,
    {
        Oid { v }
    }
}

/// The metadata of one commit that the stack logic reads: its first parent
/// (absent for a root commit) and its tree.
#[derive(Clone, Copy, Debug, PartialEq, Eq, Structural)]
pub struct CommitMeta {
    pub parent: Option<Oid>,
    pub tree: Oid,
}

/// One commit the driver has registered.
#[derive(Clone, Copy, Debug, PartialEq, Eq, Structural)]
pub struct CommitEntry {
    pub id: Oid,
    pub meta: CommitMeta,
}

/// The identifiers of a table's entries, in table order.
pub open spec fn entry_ids(s: Seq<CommitEntry>) -> Seq<Oid> {
    s.map_values(|e: CommitEntry| e.id)
}

/// The mapping a table of entries denotes.
pub open spec fn entry_map(s: Seq<CommitEntry>) -> Map<Oid, CommitMeta>
    decreases s.len(),
{
    if s.len() == 0 {
        Map::empty()
    } else {
        entry_map(s.drop_last()).insert(s.last().id, s.last().meta)
    }
}

/// The domain of a table's map is exactly its set of identifiers.
pub proof fn lemma_entry_map_dom(s: Seq<CommitEntry>)
    ensures
        entry_map(s).dom() =~= entry_ids(s).to_set(),
    decreases s.len(),
{
    if s.len() == 0 {
        assert forall|x: Oid| !entry_ids(s).to_set().contains(x) by {
            assert(!entry_ids(s).contains(x));
        }
    } else {
        lemma_entry_map_dom(s.drop_last());
        assert(entry_ids(s.drop_last()) =~= entry_ids(s).drop_last());
        assert forall|x: Oid| entry_map(s).dom().contains(x) implies entry_ids(
            s,
        ).to_set().contains(x) by {
            if x == s.last().id {
                assert(entry_ids(s)[s.len() - 1] == x);
            } else {
                let i = choose|i: int|
                    0 <= i < entry_ids(s).drop_last().len() && entry_ids(s).drop_last()[i] == x;
                assert(entry_ids(s)[i] == x);
            }
        }
        assert forall|x: Oid| entry_ids(s).to_set().contains(x) implies entry_map(
            s,
        ).dom().contains(x) by {
            let i = choose|i: int| 0 <= i < entry_ids(s).len() && entry_ids(s)[i] == x;
            if i < s.len() - 1 {
                assert(entry_ids(s).drop_last()[i] == x);
            }
        }
    }
}

/// In a table without duplicate identifiers, each entry is what its
/// identifier maps to.
pub proof fn lemma_entry_map_at(s: Seq<CommitEntry>, i: int)
    requires
        entry_ids(s).no_duplicates(),
        0 <= i < s.len(),
    ensures
        entry_map(s).dom().contains(s[i].id),
        entry_map(s)[s[i].id] == s[i].meta,
    decreases s.len(),
{
    if i == s.len() - 1 {
    } else {
        assert(entry_ids(s.drop_last()) =~= entry_ids(s).drop_last());
        lemma_entry_map_at(s.drop_last(), i);
        assert(entry_ids(s)[i] != entry_ids(s)[s.len() - 1]);
    }
}

/// The commit metadata the driver has registered for the stack logic to
/// read: a finite view of the object store, mapping each commit handle to
/// its first parent and tree.
#[derive(Debug)]
pub struct CommitTable {
    entries: Vec<CommitEntry>,
}

impl View for CommitTable {
    type V = Map<Oid, CommitMeta>;

    closed spec fn view(&self) -> Map<Oid, CommitMeta> {
        entry_map(self.entries@)
    }
}

impl CommitTable {
    /// Each commit is registered at most once.
    #[verifier::type_invariant]
    closed spec fn inv(self) -> bool {
        entry_ids(self.entries@).no_duplicates()
    }

    /// An empty table.
    pub fn new() -> (r: CommitTable)
        ensures
            r@ =~= Map::<Oid, CommitMeta>::empty(),
    {
        let entries: Vec<CommitEntry> = Vec::new();
        proof {
            assert(entry_map(entries@) =~= Map::<Oid, CommitMeta>::empty());
            assert(entry_ids(entries@) =~= Seq::<Oid>::empty());
        }
        CommitTable { entries }
    }

    /// Register a commit's metadata. Fails exactly when the commit is
    /// already registered.
    pub fn record(&mut self, id: Oid, meta: CommitMeta) -> (r: Result<(), Error>)
        ensures
            match r {
                Ok(()) => !old(self)@.dom().contains(id) && final(self)@ == old(self)@.insert(
                    id,
                    meta,
                ),
                Err(e) => old(self)@.dom().contains(id) && final(self)@ == old(self)@ && (
                e matches Error::Vcs(_)),
            },
    {
        proof {
            use_type_invariant(&*self);
        }
        let mut i: usize = 0;
        while i < self.entries.len()
            invariant
                i <= self.entries@.len(),
                forall|j: int| 0 <= j < i ==> entry_ids(self.entries@)[j] != id,
                entry_ids(self.entries@).no_duplicates(),
            decreases self.entries@.len() - i,
        {
            if self.entries[i].id == id {
                proof {
                    lemma_entry_map_at(self.entries@, i as int);
                }
                return Err(Error::Vcs(commit_known_text()));
            }
            i += 1;
        }
        proof {
            assert(!entry_ids(self.entries@).contains(id));
            lemma_entry_map_dom(self.entries@);
            assert forall|a: int, b: int|
                0 <= a < entry_ids(self.entries@).push(id).len() && 0 <= b < entry_ids(
                    self.entries@,
                ).push(id).len() && a != b implies entry_ids(self.entries@).push(id)[a]
                != entry_ids(self.entries@).push(id)[b] by {
                if a < entry_ids(self.entries@).len() && b < entry_ids(self.entries@).len() {
                    assert(entry_ids(self.entries@)[a] != entry_ids(self.entries@)[b]);
                } else if a < entry_ids(self.entries@).len() {
                    assert(entry_ids(self.entries@)[a] != id) by {
                        if entry_ids(self.entries@)[a] == id {
                            assert(entry_ids(self.entries@).contains(id));
                        }
                    }
                } else if b < entry_ids(self.entries@).len() {
                    assert(entry_ids(self.entries@)[b] != id) by {
                        if entry_ids(self.entries@)[b] == id {
                            assert(entry_ids(self.entries@).contains(id));
                        }
                    }
                }
            }
        }
        let ghost pre = self.entries@;
        let mut entries: Vec<CommitEntry> = Vec::new();
        let mut j: usize = 0;
        while j < self.entries.len()
            invariant
                j <= self.entries@.len(),
                entries@ =~= self.entries@.take(j as int),
            decreases self.entries@.len() - j,
        {
            entries.push(self.entries[j]);
            j += 1;
        }
        assert(entries@ =~= pre);
        let entry = CommitEntry { id, meta };
        entries.push(entry);
        proof {
            assert(entry_ids(entries@) =~= entry_ids(pre).push(id));
            assert(entries@.drop_last() =~= pre);
            assert(entry_map(entries@) =~= entry_map(pre).insert(id, meta));
        }
        *self = CommitTable { entries };
        Ok(())
    }

    /// The registered metadata of a commit, if any.
    pub fn lookup(&self, id: Oid) -> (r: Option<CommitMeta>)
        ensures
            match r {
                Some(m) => self@.dom().contains(id) && self@[id] == m,
                None => !self@.dom().contains(id),
            },
    {
        proof {
            use_type_invariant(&*self);
        }
        let mut i: usize = 0;
        while i < self.entries.len()
            invariant
                i <= self.entries@.len(),
                forall|j: int| 0 <= j < i ==> entry_ids(self.entries@)[j] != id,
                entry_ids(self.entries@).no_duplicates(),
            decreases self.entries@.len() - i,
        {
            if self.entries[i].id == id {
                proof {
                    lemma_entry_map_at(self.entries@, i as int);
                }
                return Some(self.entries[i].meta);
            }
            i += 1;
        }
        proof {
            assert(!entry_ids(self.entries@).contains(id));
            lemma_entry_map_dom(self.entries@);
        }
        None
    }
}

/// The message reported when a commit is registered twice.
fn commit_known_text() -> (r: String)
    ensures
        r@ == "commit already registered"@,
{
    <String as vstd::string::StringExecFns>::from_str("commit already registered")
}

} // verus!
