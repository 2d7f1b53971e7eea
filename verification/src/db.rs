//! Handles: the owning wrappers around the engine's index objects.
//!
//! A [`WritableDatabase`] owns a mutable index; a [`Database`] is its
//! read-only face. The writable handle contains its read-only base, and
//! [`WritableDatabase::upcast`] exposes it as a reference with the same
//! lifetime — an explicit capability narrowing, never an ownership
//! transfer and never a copy. Closing a handle downgrades it to inert;
//! the model makes every later mutation through it a stated no-op.
//!
//! The store itself is the in-memory backend: documents held in ascending
//! identifier order, plus the per-index metadata key/value store. On-disk
//! backends belong to the engine and are not reachable from this model;
//! opening one fails with a [`ConstructionError`].

use vstd::prelude::*;
use vstd::slice::slice_to_vec;

use crate::doc::{doc_has_term, DocView, Document};
use crate::value::bytes_eq;
use crate::DocId;

verus! {

/// How opening should treat an existing (or missing) index.
#[derive(Debug, Clone, Copy, PartialEq, Eq, Structural)]
pub enum DbAction {
    /// Open the index if it exists, create it otherwise
    CreateOrOpen,
    /// Overwrite the index if it exists, create it otherwise
    CreateOrOverwrite,
    /// Create a new index
    Create,
    /// Open an existing index
    Open,
}

impl DbAction {
    /// The numeric code the engine's interface fixes for this action.
    pub open spec fn code_spec(self) -> u32 {
        match self {
            DbAction::CreateOrOpen => 0x00,
            DbAction::CreateOrOverwrite => 0x01,
            DbAction::Create => 0x02,
            DbAction::Open => 0x03,
        }
    }

    /// The numeric code of this action.
    pub fn code(self) -> (r: u32)
        ensures
            r == self.code_spec(),
    {
        match self {
            DbAction::CreateOrOpen => 0x00,
            DbAction::CreateOrOverwrite => 0x01,
            DbAction::Create => 0x02,
            DbAction::Open => 0x03,
        }
    }
}

/// The storage backend an index uses.
#[derive(Debug, Clone, Copy, PartialEq, Eq, Structural)]
pub enum DbBackend {
    /// Automatically select a backend
    Auto,
    /// The glass on-disk backend
    Glass,
    /// The chert on-disk backend
    Chert,
    /// The stub backend
    Stub,
    /// The in-memory backend
    InMemory,
}

impl DbBackend {
    /// The numeric code the engine's interface fixes for this backend.
    pub open spec fn code_spec(self) -> u32 {
        match self {
            DbBackend::Auto => 0x000,
            DbBackend::Glass => 0x100,
            DbBackend::Chert => 0x200,
            DbBackend::Stub => 0x300,
            DbBackend::InMemory => 0x400,
        }
    }

    /// The numeric code of this backend.
    pub fn code(self) -> (r: u32)
        ensures
            r == self.code_spec(),
    {
        match self {
            DbBackend::Auto => 0x000,
            DbBackend::Glass => 0x100,
            DbBackend::Chert => 0x200,
            DbBackend::Stub => 0x300,
            DbBackend::InMemory => 0x400,
        }
    }
}

/// Behaviour flags of a writable index, one bit each.
#[derive(Debug, Clone, Copy, PartialEq, Eq, Structural)]
pub struct DbFlags {
    /// The raw flag bits.
    pub bits: u32,
}

impl DbFlags {
    /// No flags set.
    pub fn empty() -> (r: DbFlags)
        ensures
            r.bits == 0,
    {
        DbFlags { bits: 0 }
    }

    /// Don't attempt to ensure changes have hit the disk.
    pub fn no_sync() -> (r: DbFlags)
        ensures
            r.bits == 0x04,
    {
        DbFlags { bits: 0x04 }
    }

    /// Try to ensure changes have hit the disk.
    pub fn full_sync() -> (r: DbFlags)
        ensures
            r.bits == 0x08,
    {
        DbFlags { bits: 0x08 }
    }

    /// Update the index in place.
    pub fn dangerous() -> (r: DbFlags)
        ensures
            r.bits == 0x10,
    {
        DbFlags { bits: 0x10 }
    }

    /// Do not create a term-list table when creating the index.
    pub fn no_termlist() -> (r: DbFlags)
        ensures
            r.bits == 0x20,
    {
        DbFlags { bits: 0x20 }
    }

    /// If the index is already locked, retry the lock.
    pub fn retry_lock() -> (r: DbFlags)
        ensures
            r.bits == 0x40,
    {
        DbFlags { bits: 0x40 }
    }

    /// Both flag sets combined.
    pub fn union(self, other: DbFlags) -> (r: DbFlags)
        ensures
            r.bits == self.bits | other.bits,
    {
        DbFlags { bits: self.bits | other.bits }
    }

    /// Whether every flag of `other` is set in `self`.
    pub fn contains(self, other: DbFlags) -> (r: bool)
        ensures
            r == (self.bits & other.bits == other.bits),
    {
        self.bits & other.bits == other.bits
    }
}

/// The combined open-flags word: the action and backend codes and the
/// behaviour bits, one word, as the engine's open call takes it.
pub open spec fn open_flags_spec(action: DbAction, backend: DbBackend, flags: u32) -> u32 {
    action.code_spec() | backend.code_spec() | flags
}

/// Compose the open-flags word from an action, a backend and behaviour
/// flags.
pub fn open_flags(action: DbAction, backend: DbBackend, flags: DbFlags) -> (r: u32)
    ensures
        r == open_flags_spec(action, backend, flags.bits),
{
    action.code() | backend.code() | flags.bits
}

/// The action to use when none is given: create-or-open.
pub open spec fn action_or_default(a: Option<DbAction>) -> DbAction {
    match a {
        Some(x) => x,
        None => DbAction::CreateOrOpen,
    }
}

/// The predicate "does not carry term `t`" (what deleting by term keeps).
pub open spec fn without_term(t: Seq<u8>) -> spec_fn(DocView) -> bool {
    |d: DocView| !doc_has_term(d, t)
}

/// Opening an index failed.
#[derive(Debug, Clone, Copy, PartialEq, Eq, Structural)]
pub enum ConstructionError {
    /// The selected backend is not reachable from this store: only the
    /// in-memory backend is.
    BackendUnavailable,
}

/// The mathematical content of an index.
pub struct DbView {
    /// The stored documents, in ascending identifier order.
    pub docs: Seq<DocView>,
    /// The metadata key/value store, unique by key.
    pub metadata: Seq<(Seq<u8>, Seq<u8>)>,
    /// The identifier the next added document receives.
    pub next_id: u32,
    /// Whether the handle has been downgraded to inert.
    pub closed: bool,
}

/// The views of a sequence of documents, element-wise.
pub open spec fn docs_view(ds: Seq<Document>) -> Seq<DocView> {
    Seq::new(ds.len(), |k: int| ds[k]@)
}

/// Whether some metadata entry is for `key`.
pub open spec fn has_key_in(md: Seq<(Seq<u8>, Seq<u8>)>, key: Seq<u8>) -> bool {
    exists|j: int| 0 <= j < md.len() && md[j].0 == key
}

/// The index of the metadata entry for `key`.
pub open spec fn key_index_of(md: Seq<(Seq<u8>, Seq<u8>)>, key: Seq<u8>) -> int {
    choose|j: int| 0 <= j < md.len() && md[j].0 == key
}

/// The metadata value stored under `key`: the stored byte string, or the
/// empty string when the key holds nothing (the engine's convention).
pub open spec fn metadata_in(md: Seq<(Seq<u8>, Seq<u8>)>, key: Seq<u8>) -> Seq<u8> {
    if has_key_in(md, key) {
        md[key_index_of(md, key)].1
    } else {
        Seq::empty()
    }
}

/// No two metadata entries share a key.
pub open spec fn keys_unique(md: Seq<(Seq<u8>, Seq<u8>)>) -> bool {
    forall|j: int, k: int| 0 <= j < k < md.len() ==> md[j].0 != md[k].0
}

/// Whether some stored document has identifier `id`.
pub open spec fn has_doc_id(docs: Seq<DocView>, id: u32) -> bool {
    exists|j: int| 0 <= j < docs.len() && docs[j].id == id
}

/// The index of the stored document with identifier `id`.
pub open spec fn doc_index_of(docs: Seq<DocView>, id: u32) -> int {
    choose|j: int| 0 <= j < docs.len() && docs[j].id == id
}

/// The stored document with identifier `id`, if any.
pub open spec fn doc_by_id(docs: Seq<DocView>, id: u32) -> Option<DocView> {
    if has_doc_id(docs, id) {
        Some(docs[doc_index_of(docs, id)])
    } else {
        None
    }
}

/// The documents are held with non-zero, strictly ascending identifiers,
/// the next identifier is above them all, and metadata keys are unique.
pub open spec fn db_wf(d: DbView) -> bool {
    &&& forall|j: int| 0 <= j < d.docs.len() ==> (#[trigger] d.docs[j]).id != 0
    &&& forall|j: int, k: int| 0 <= j < k < d.docs.len() ==> d.docs[j].id < d.docs[k].id
    &&& forall|j: int| 0 <= j < d.docs.len() ==> (#[trigger] d.docs[j]).id < d.next_id
    &&& d.next_id >= 1
    &&& keys_unique(d.metadata)
}

/// The documents of `s` that satisfy `p`, in order.
pub open spec fn filter_docs(s: Seq<DocView>, p: spec_fn(DocView) -> bool) -> Seq<DocView>
    decreases s.len(),
{
    if s.len() == 0 {
        Seq::empty()
    } else {
        let rest = filter_docs(s.drop_last(), p);
        if p(s.last()) {
            rest.push(s.last())
        } else {
            rest
        }
    }
}

/// A read-only index handle.
///
/// Obtained from [`WritableDatabase::read_only`] (an independent shared
/// snapshot) or [`WritableDatabase::upcast`] (the writable handle's own
/// read-only base).
pub struct Database {
    docs: Vec<Document>,
    metadata: Vec<MetaEntry>,
    next_id: u32,
    closed: bool,
}

struct MetaEntry {
    key: Vec<u8>,
    value: Vec<u8>,
}

/// The views of a sequence of metadata entries, element-wise.
spec fn metadata_view(md: Seq<MetaEntry>) -> Seq<(Seq<u8>, Seq<u8>)> {
    Seq::new(md.len(), |k: int| (md[k].key@, md[k].value@))
}

impl View for Database {
    type V = DbView;

    closed spec fn view(&self) -> DbView {
        DbView {
            docs: docs_view(self.docs@),
            metadata: metadata_view(self.metadata@),
            next_id: self.next_id,
            closed: self.closed,
        }
    }
}

impl Database {
    /// Every handle is well-formed; `use_type_invariant` hands callers
    /// the fact.
    #[verifier::type_invariant]
    pub open spec fn inv(self) -> bool {
        db_wf(self@)
    }

    /// A fresh, empty in-memory index.
    pub(crate) fn empty() -> (r: Database)
        ensures
            r@.docs == Seq::<DocView>::empty(),
            r@.metadata == Seq::<(Seq<u8>, Seq<u8>)>::empty(),
            r@.next_id == 1,
            !r@.closed,
    {
        let d = Database { docs: Vec::new(), metadata: Vec::new(), next_id: 1, closed: false };
        proof {
            assert(d@.docs =~= Seq::<DocView>::empty());
            assert(d@.metadata =~= Seq::<(Seq<u8>, Seq<u8>)>::empty());
        }
        d
    }

    /// Open a read-only index.
    ///
    /// Only the in-memory backend is reachable from this store; it opens
    /// empty. Selecting any other backend (or leaving the automatic
    /// choice, which would go to disk) fails with
    /// [`ConstructionError::BackendUnavailable`].
    pub fn open(path: &str, backend: Option<DbBackend>) -> (r: Result<Database, ConstructionError>)
        ensures
            match r {
                Ok(d) => backend == Some(DbBackend::InMemory) && d@.docs
                    == Seq::<DocView>::empty() && d@.next_id == 1 && !d@.closed,
                Err(e) => backend != Some(DbBackend::InMemory) && e
                    == ConstructionError::BackendUnavailable,
            },
    {
        match backend {
            Some(DbBackend::InMemory) => Ok(Database::empty()),
            _ => Err(ConstructionError::BackendUnavailable),
        }
    }

    /// Downgrade the handle to inert. The data stays until the handle is
    /// dropped; this model keeps reads working and makes later writes
    /// through a writable handle stated no-ops.
    pub fn close(&mut self)
        ensures
            final(self)@ == (DbView { closed: true, ..old(self)@ }),
    {
        proof {
            use_type_invariant(&*self);
        }
        self.closed = true;
    }

    /// The number of documents stored in the index.
    pub fn doc_count(&self) -> (r: u32)
        ensures
            r == self@.docs.len(),
    {
        proof {
            use_type_invariant(self);
            if self.docs@.len() > 0 {
                lemma_ids_at_least(self@.docs, self@.docs.len() - 1);
            }
        }
        self.docs.len() as u32
    }

    /// Whether any stored document carries the given term.
    pub fn term_exists(&self, term: &[u8]) -> (r: bool)
        ensures
            r == (exists|j: int|
                0 <= j < self@.docs.len() && doc_has_term(#[trigger] self@.docs[j], term@)),
    {
        let n = self.docs.len();
        let mut i: usize = 0;
        while i < n
            invariant
                n == self@.docs.len(),
                0 <= i <= n,
                forall|j: int| 0 <= j < i ==> !doc_has_term(#[trigger] self@.docs[j], term@),
            decreases n - i,
        {
            if self.docs[i].has_term(term) {
                proof {
                    assert(doc_has_term(self@.docs[i as int], term@));
                }
                return true;
            }
            i += 1;
        }
        false
    }

    /// The metadata value stored under `key`; the empty byte string when
    /// the key holds nothing.
    pub fn metadata(&self, key: &[u8]) -> (r: Vec<u8>)
        ensures
            r@ == metadata_in(self@.metadata, key@),
    {
        proof {
            use_type_invariant(self);
        }
        let n = self.metadata.len();
        let mut i: usize = 0;
        while i < n
            invariant
                n == self@.metadata.len(),
                0 <= i <= n,
                forall|j: int| 0 <= j < i ==> self@.metadata[j].0 != key@,
                keys_unique(self@.metadata),
            decreases n - i,
        {
            if bytes_eq(self.metadata[i].key.as_slice(), key) {
                proof {
                    lemma_unique_key_index(self@.metadata, key@, i as int);
                }
                return slice_to_vec(self.metadata[i].value.as_slice());
            }
            i += 1;
        }
        proof {
            if has_key_in(self@.metadata, key@) {
                let j = key_index_of(self@.metadata, key@);
                assert(0 <= j < self@.metadata.len() && self@.metadata[j].0 == key@);
            }
            assert(metadata_in(self@.metadata, key@) =~= Seq::<u8>::empty());
        }
        Vec::new()
    }

    /// The stored document with the given identifier, as a snapshot.
    pub fn document(&self, id: DocId) -> (r: Option<Document>)
        ensures
            match r {
                Some(d) => doc_by_id(self@.docs, id.get()) == Some(d@),
                None => !has_doc_id(self@.docs, id.get()),
            },
    {
        proof {
            use_type_invariant(self);
        }
        let raw = id.get_raw();
        let n = self.docs.len();
        let mut i: usize = 0;
        while i < n
            invariant
                n == self@.docs.len(),
                0 <= i <= n,
                forall|j: int| 0 <= j < i ==> (#[trigger] self@.docs[j]).id != raw,
                raw == id.get(),
                db_wf(self@),
            decreases n - i,
        {
            let d = &self.docs[i];
            if d.id_raw() == raw {
                proof {
                    lemma_unique_doc_index(self@.docs, raw, i as int);
                }
                return Some(d.snapshot());
            }
            i += 1;
        }
        None
    }

    /// A reference to the stored document at position `i` (identifier
    /// order).
    pub(crate) fn doc_at(&self, i: usize) -> (r: &Document)
        requires
            i < self@.docs.len(),
        ensures
            r@ == self@.docs[i as int],
    {
        &self.docs[i]
    }

    /// The number of stored documents, as the vector length.
    pub(crate) fn docs_len(&self) -> (r: usize)
        ensures
            r == self@.docs.len(),
    {
        self.docs.len()
    }

    /// The position `id` has (or would take) in the ascending document
    /// order.
    fn insert_pos(&self, id: u32) -> (r: usize)
        ensures
            0 <= r <= self@.docs.len(),
            forall|j: int| 0 <= j < r ==> (#[trigger] self@.docs[j]).id < id,
            forall|j: int| r <= j < self@.docs.len() ==> (#[trigger] self@.docs[j]).id >= id,
    {
        proof {
            use_type_invariant(self);
        }
        let n = self.docs.len();
        let mut i: usize = 0;
        while i < n
            invariant
                n == self@.docs.len(),
                0 <= i <= n,
                forall|j: int| 0 <= j < i ==> (#[trigger] self@.docs[j]).id < id,
                db_wf(self@),
            decreases n - i,
        {
            if self.docs[i].id_raw() >= id {
                proof {
                    assert forall|j: int| i <= j < self@.docs.len() implies (#[trigger] self@.docs[
                        j
                    ]).id >= id by {
                        if j > i {
                            assert(self@.docs[i as int].id < self@.docs[j].id);
                        }
                    }
                }
                return i;
            }
            i += 1;
        }
        n
    }

    /// An independent snapshot of this index: the cheap shared-state copy
    /// the engine gives out for read paths.
    fn duplicate(&self) -> (r: Database)
        ensures
            r@ == self@,
    {
        proof {
            use_type_invariant(self);
        }
        let mut docs: Vec<Document> = Vec::new();
        let mut i: usize = 0;
        while i < self.docs.len()
            invariant
                0 <= i <= self.docs@.len(),
                docs_view(docs@) =~= docs_view(self.docs@).take(i as int),
            decreases self.docs@.len() - i,
        {
            let ghost pre = docs@;
            let d = self.docs[i].snapshot();
            proof {
                assert(d@ == self.docs@[i as int]@);
                assert(docs_view(pre) =~= docs_view(self.docs@).take(i as int));
                assert(docs_view(pre).len() == pre.len());
                assert(i as int <= docs_view(self.docs@).len());
                assert(docs_view(self.docs@).take(i as int).len() == i as int);
            }
            docs.push(d);
            proof {
                assert(pre.len() == i as int);
                assert(docs@ == pre.push(d));
                let m_new = docs_view(docs@);
                let m_all = docs_view(self.docs@);
                let m_pre = docs_view(pre);
                assert forall|k: int| 0 <= k < i + 1 implies m_new[k] == m_all.take(
                    i as int + 1,
                )[k] by {
                    if k < i {
                        assert(m_new[k] == docs@[k]@);
                        assert(docs@[k] == pre[k]);
                        assert(m_pre[k] == m_all.take(i as int)[k]);
                    } else {
                        assert(m_new[k] == docs@[k]@);
                        assert(docs@[k] == d);
                    }
                }
                assert(docs_view(docs@) =~= docs_view(self.docs@).take(i as int + 1));
            }
            i += 1;
        }
        let mut metadata: Vec<MetaEntry> = Vec::new();
        let mut j: usize = 0;
        while j < self.metadata.len()
            invariant
                0 <= j <= self.metadata@.len(),
                metadata_view(metadata@) =~= metadata_view(self.metadata@).take(j as int),
            decreases self.metadata@.len() - j,
        {
            let ghost pre = metadata@;
            let e = MetaEntry {
                key: slice_to_vec(self.metadata[j].key.as_slice()),
                value: slice_to_vec(self.metadata[j].value.as_slice()),
            };
            proof {
                assert((e.key@, e.value@) == (self.metadata@[j as int].key@, self.metadata@[
                    j as int
                ].value@));
                assert(metadata_view(pre) =~= metadata_view(self.metadata@).take(j as int));
                assert(metadata_view(pre).len() == pre.len());
                assert(j as int <= metadata_view(self.metadata@).len());
                assert(metadata_view(self.metadata@).take(j as int).len() == j as int);
            }
            metadata.push(e);
            proof {
                assert(pre.len() == j as int);
                assert(metadata@ == pre.push(e));
                let m_new = metadata_view(metadata@);
                let m_all = metadata_view(self.metadata@);
                let m_pre = metadata_view(pre);
                assert forall|k: int| 0 <= k < j + 1 implies m_new[k] == m_all.take(
                    j as int + 1,
                )[k] by {
                    if k < j {
                        assert(m_new[k] == (metadata@[k].key@, metadata@[k].value@));
                        assert(metadata@[k] == pre[k]);
                        assert(m_pre[k] == m_all.take(j as int)[k]);
                    } else {
                        assert(m_new[k] == (metadata@[k].key@, metadata@[k].value@));
                        assert(metadata@[k] == e);
                    }
                }
                assert(metadata_view(metadata@) =~= metadata_view(self.metadata@).take(
                    j as int + 1,
                ));
            }
            j += 1;
        }
        proof {
            assert(docs_view(docs@) =~= self@.docs);
            assert(metadata_view(metadata@) =~= self@.metadata);
        }
        let r = Database { docs, metadata, next_id: self.next_id, closed: self.closed };
        proof {
            assert(r@ == self@);
        }
        r
    }
}

impl Clone for Database {
    /// An independent snapshot with the same stored state: the engine's
    /// cheap shared-state copy of a read-only handle.
    fn clone(&self) -> (r: Database)
        ensures
            r@ == self@,
    {
        self.duplicate()
    }
}

/// With ascending non-zero identifiers, the document at position `j` has
/// identifier at least `j + 1`.
proof fn lemma_ids_at_least(docs: Seq<DocView>, j: int)
    requires
        forall|k: int| 0 <= k < docs.len() ==> (#[trigger] docs[k]).id != 0,
        forall|k: int, l: int| 0 <= k < l < docs.len() ==> docs[k].id < docs[l].id,
        0 <= j < docs.len(),
    ensures
        docs[j].id >= j + 1,
    decreases j,
{
    if j > 0 {
        lemma_ids_at_least(docs, j - 1);
    }
}

/// With unique keys, the found index is the `choose`-picked one.
proof fn lemma_unique_key_index(md: Seq<(Seq<u8>, Seq<u8>)>, key: Seq<u8>, i: int)
    requires
        keys_unique(md),
        0 <= i < md.len(),
        md[i].0 == key,
    ensures
        has_key_in(md, key),
        key_index_of(md, key) == i,
{
    assert(has_key_in(md, key));
    let j = key_index_of(md, key);
    assert(0 <= j < md.len() && md[j].0 == key);
    if i != j {
        assert(false);
    }
}

/// With ascending identifiers, the found index is the `choose`-picked one.
proof fn lemma_unique_doc_index(docs: Seq<DocView>, id: u32, i: int)
    requires
        forall|k: int, l: int| 0 <= k < l < docs.len() ==> docs[k].id < docs[l].id,
        0 <= i < docs.len(),
        docs[i].id == id,
    ensures
        has_doc_id(docs, id),
        doc_index_of(docs, id) == i,
{
    assert(has_doc_id(docs, id));
    let j = doc_index_of(docs, id);
    assert(0 <= j < docs.len() && docs[j].id == id);
    if i < j {
        assert(docs[i].id < docs[j].id);
    }
    if j < i {
        assert(docs[j].id < docs[i].id);
    }
}

/// The mathematical content of a writable index handle.
pub struct WdbView {
    /// The stored index state.
    pub db: DbView,
    /// The snapshot a transaction in progress would roll back to.
    pub txn: Option<DbView>,
    /// The open-flags word the handle was opened with.
    pub flags: u32,
}

/// A writable index handle.
///
/// Contains its read-only base, which [`WritableDatabase::upcast`] exposes;
/// the containment is what makes the upcast a plain reference with the
/// derived handle's lifetime.
pub struct WritableDatabase {
    base: Database,
    txn: Option<Database>,
    flags_word: u32,
}

impl View for WritableDatabase {
    type V = WdbView;

    closed spec fn view(&self) -> WdbView {
        WdbView {
            db: self.base@,
            txn: match self.txn {
                Some(ref d) => Some(d@),
                None => None,
            },
            flags: self.flags_word,
        }
    }
}

impl WritableDatabase {
    /// A fresh, writable in-memory index.
    pub fn inmemory() -> (r: WritableDatabase)
        ensures
            r@.db.docs == Seq::<DocView>::empty(),
            r@.db.metadata == Seq::<(Seq<u8>, Seq<u8>)>::empty(),
            r@.db.next_id == 1,
            !r@.db.closed,
            r@.txn is None,
            r@.flags == 0,
    {
        WritableDatabase { base: Database::empty(), txn: None, flags_word: 0 }
    }

    /// Open an index for updates.
    ///
    /// The open-flags word is composed from the action (create-or-open
    /// when absent), the backend (automatic choice when absent) and the
    /// behaviour flags, exactly as the engine's open call takes it. Only
    /// the in-memory backend is reachable from this store, and it ignores
    /// `block_size`; every other backend fails with
    /// [`ConstructionError::BackendUnavailable`].
    pub fn open(
        path: &str,
        action: Option<DbAction>,
        backend: Option<DbBackend>,
        flags: Option<DbFlags>,
        block_size: Option<i32>,
    ) -> (r: Result<WritableDatabase, ConstructionError>)
        ensures
            match r {
                Ok(w) => {
                    &&& backend == Some(DbBackend::InMemory)
                    &&& w@.db.docs == Seq::<DocView>::empty()
                    &&& w@.db.next_id == 1
                    &&& !w@.db.closed
                    &&& w@.txn is None
                    &&& w@.flags == open_flags_spec(
                        action_or_default(action),
                        DbBackend::InMemory,
                        match flags {
                            Some(f) => f.bits,
                            None => 0,
                        },
                    )
                },
                Err(e) => backend != Some(DbBackend::InMemory) && e
                    == ConstructionError::BackendUnavailable,
            },
    {
        let action = match action {
            Some(a) => a,
            None => DbAction::CreateOrOpen,
        };
        let flags = match flags {
            Some(f) => f,
            None => DbFlags::empty(),
        };
        match backend {
            Some(DbBackend::InMemory) => {
                let word = open_flags(action, DbBackend::InMemory, flags);
                Ok(WritableDatabase { base: Database::empty(), txn: None, flags_word: word })
            },
            _ => Err(ConstructionError::BackendUnavailable),
        }
    }

    /// Expose the writable handle as its read-only base: an explicit
    /// capability narrowing with the same lifetime, never a copy and never
    /// an ownership transfer.
    pub fn upcast(&self) -> (r: &Database)
        ensures
            r@ == self@.db,
    {
        &self.base
    }

    /// An independent read-only snapshot of the current stored state.
    pub fn read_only(&self) -> (r: Database)
        ensures
            r@ == self@.db,
    {
        self.base.clone()
    }

    /// The number of documents stored in the index.
    pub fn doc_count(&self) -> (r: u32)
        ensures
            r == self@.db.docs.len(),
    {
        self.base.doc_count()
    }

    /// The metadata value stored under `key`; the empty byte string when
    /// the key holds nothing.
    pub fn metadata(&self, key: &[u8]) -> (r: Vec<u8>)
        ensures
            r@ == metadata_in(self@.db.metadata, key@),
    {
        self.base.metadata(key)
    }

    /// Downgrade the handle to inert: later mutations through it are
    /// stated no-ops, and the data stays until the handle drops.
    pub fn close(&mut self)
        ensures
            final(self)@.db == (DbView { closed: true, ..old(self)@.db }),
            final(self)@.txn == old(self)@.txn,
            final(self)@.flags == old(self)@.flags,
    {
        proof {
            use_type_invariant(&self.base);
        }
        self.base.closed = true;
    }

    /// Flush pending modifications.
    ///
    /// The in-memory backend holds everything in place, so there is
    /// nothing to flush and the state is unchanged; on the engine's disk
    /// backends this is where changes would reach durable storage.
    pub fn commit(&mut self)
        ensures
            *final(self) == *old(self),
    {
    }

    /// Add a new document, assigning it the next identifier.
    ///
    /// Returns the assigned identifier, or nothing when the handle is
    /// closed or the identifier space is exhausted (in which case the
    /// state is unchanged).
    pub fn add_document(&mut self, doc: &Document) -> (r: Option<DocId>)
        ensures
            old(self)@.db.closed || old(self)@.db.next_id == 0xffff_ffff ==> r is None
                && *final(self) == *old(self),
            !(old(self)@.db.closed || old(self)@.db.next_id == 0xffff_ffff) ==> {
                &&& r matches Some(id) && id.get() == old(self)@.db.next_id
                &&& final(self)@.db.docs == old(self)@.db.docs.push(
                    DocView { id: old(self)@.db.next_id, ..doc@ },
                )
                &&& final(self)@.db.next_id == old(self)@.db.next_id + 1
                &&& final(self)@.db.metadata == old(self)@.db.metadata
                &&& final(self)@.db.closed == old(self)@.db.closed
                &&& final(self)@.txn == old(self)@.txn
                &&& final(self)@.flags == old(self)@.flags
            },
    {
        proof {
            use_type_invariant(&self.base);
        }
        if self.base.closed || self.base.next_id == 0xffff_ffffu32 {
            return None;
        }
        let id = self.base.next_id;
        let mut d = doc.snapshot();
        d.assign_id(id);
        let mut tmp = Database::empty();
        core::mem::swap(&mut self.base, &mut tmp);
        proof {
            use_type_invariant(&tmp);
        }
        let Database { mut docs, metadata, next_id, closed } = tmp;
        let ghost old_docs = docs_view(docs@);
        docs.push(d);
        proof {
            assert(docs_view(docs@) =~= old_docs.push(d@));
            assert(forall|j: int|
                0 <= j < old_docs.len() ==> (#[trigger] docs_view(docs@)[j]) == old_docs[j]);
        }
        self.base = Database { docs, metadata, next_id: id + 1, closed };
        Some(DocId::from_nonzero(id))
    }

    /// Replace the document with the given identifier, or store the
    /// document under that identifier if none is stored yet.
    ///
    /// A closed handle, and the one unusable identifier (the largest
    /// possible, which would exhaust the identifier space), leave the
    /// state unchanged.
    pub fn replace_document(&mut self, id: DocId, doc: &Document)
        ensures
            old(self)@.db.closed || id.get() == 0xffff_ffff ==> *final(self) == *old(self),
            !(old(self)@.db.closed || id.get() == 0xffff_ffff) ==> {
                &&& doc_by_id(final(self)@.db.docs, id.get()) == Some(
                    DocView { id: id.get(), ..doc@ },
                )
                &&& forall|other: u32|
                    other != id.get() ==> doc_by_id(final(self)@.db.docs, other) == doc_by_id(
                        old(self)@.db.docs,
                        other,
                    )
                &&& final(self)@.db.next_id == (if id.get() >= old(self)@.db.next_id {
                    (id.get() + 1) as u32
                } else {
                    old(self)@.db.next_id
                })
                &&& final(self)@.db.metadata == old(self)@.db.metadata
                &&& final(self)@.db.closed == old(self)@.db.closed
                &&& final(self)@.txn == old(self)@.txn
                &&& final(self)@.flags == old(self)@.flags
            },
    {
        proof {
            use_type_invariant(&self.base);
        }
        let raw = id.get_raw();
        if self.base.closed || raw == 0xffff_ffffu32 {
            return ;
        }
        let mut d = doc.snapshot();
        d.assign_id(raw);
        let pos = self.base.insert_pos(raw);
        let mut tmp = Database::empty();
        core::mem::swap(&mut self.base, &mut tmp);
        proof {
            use_type_invariant(&tmp);
        }
        let Database { mut docs, metadata, next_id, closed } = tmp;
        let ghost old_docs = docs_view(docs@);
        let new_next = if raw >= next_id {
            raw + 1
        } else {
            next_id
        };
        if pos < docs.len() && docs[pos].id_raw() == raw {
            docs[pos] = d;
            proof {
                assert(docs_view(docs@) =~= old_docs.update(
                    pos as int,
                    DocView { id: raw, ..doc@ },
                ));
                lemma_docs_update_entry(old_docs, docs_view(docs@), pos as int);
            }
        } else {
            proof {
                assert forall|j: int|
                    pos as int <= j < old_docs.len() implies (#[trigger] old_docs[j]).id > raw by {
                    assert(old_docs[j].id >= raw);
                    if j == pos as int {
                        assert(old_docs[j].id != raw);
                    } else {
                        assert(old_docs[pos as int].id < old_docs[j].id);
                        assert(old_docs[pos as int].id >= raw);
                    }
                }
            }
            docs.insert(pos, d);
            proof {
                assert(docs_view(docs@) =~= old_docs.insert(pos as int, DocView { id: raw, ..doc@ }));
                lemma_docs_insert_entry(old_docs, docs_view(docs@), pos as int, raw);
            }
        }
        self.base = Database { docs, metadata, next_id: new_next, closed };
    }

    /// Delete the document with the given identifier, if one is stored; a
    /// closed handle leaves the state unchanged.
    pub fn delete_document(&mut self, id: DocId)
        ensures
            old(self)@.db.closed ==> *final(self) == *old(self),
            !old(self)@.db.closed ==> {
                &&& doc_by_id(final(self)@.db.docs, id.get()) is None
                &&& forall|other: u32|
                    other != id.get() ==> doc_by_id(final(self)@.db.docs, other) == doc_by_id(
                        old(self)@.db.docs,
                        other,
                    )
                &&& final(self)@.db.next_id == old(self)@.db.next_id
                &&& final(self)@.db.metadata == old(self)@.db.metadata
                &&& final(self)@.db.closed == old(self)@.db.closed
                &&& final(self)@.txn == old(self)@.txn
                &&& final(self)@.flags == old(self)@.flags
            },
    {
        proof {
            use_type_invariant(&self.base);
        }
        let raw = id.get_raw();
        if self.base.closed {
            return ;
        }
        let pos = self.base.insert_pos(raw);
        if pos < self.base.docs.len() {
            let hit = self.base.doc_at(pos).id_raw() == raw;
            if hit {
                let mut tmp = Database::empty();
                core::mem::swap(&mut self.base, &mut tmp);
                proof {
                    use_type_invariant(&tmp);
                }
                let Database { mut docs, metadata, next_id, closed } = tmp;
                let ghost old_docs = docs_view(docs@);
                docs.remove(pos);
                proof {
                    assert(docs_view(docs@) =~= old_docs.remove(pos as int));
                    lemma_docs_remove_entry(old_docs, docs_view(docs@), pos as int);
                }
                self.base = Database { docs, metadata, next_id, closed };
                return ;
            }
        }
        proof {
            use_type_invariant(&self.base);
            assert(!has_doc_id(self@.db.docs, raw)) by {
                if has_doc_id(self@.db.docs, raw) {
                    let j = doc_index_of(self@.db.docs, raw);
                    assert(0 <= j < self@.db.docs.len() && self@.db.docs[j].id == raw);
                    if j < pos {
                        assert(self@.db.docs[j].id < raw);
                    } else {
                        assert(self@.db.docs[j].id >= raw);
                        if j > pos as int {
                            assert(self@.db.docs[pos as int].id < self@.db.docs[j].id);
                            assert(self@.db.docs[pos as int].id >= raw);
                        }
                    }
                }
            }
        }
    }


    /// Replace every document carrying `term` with `doc`: the new document
    /// takes the identifier of the first (lowest-identifier) carrier and
    /// all other carriers are deleted; with no carrier, the document is
    /// added like [`WritableDatabase::add_document`]. Returns the
    /// identifier the document was stored under.
    pub fn replace_document_by_term(&mut self, term: &[u8], doc: &Document) -> (r: Option<DocId>)
        ensures
            old(self)@.db.closed ==> r is None && *final(self) == *old(self),
            !old(self)@.db.closed ==> match first_id_with_term(old(self)@.db.docs, term@) {
                Some(id) => {
                    &&& r matches Some(rid) && rid.get() == id
                    &&& doc_by_id(final(self)@.db.docs, id) == Some(DocView { id: id, ..doc@ })
                    &&& forall|other: u32|
                        other != id ==> doc_by_id(final(self)@.db.docs, other) == (
                        match doc_by_id(old(self)@.db.docs, other) {
                            Some(d) => if doc_has_term(d, term@) {
                                None::<DocView>
                            } else {
                                Some(d)
                            },
                            None => None::<DocView>,
                        })
                    &&& final(self)@.db.next_id == old(self)@.db.next_id
                    &&& final(self)@.db.metadata == old(self)@.db.metadata
                    &&& final(self)@.db.closed == old(self)@.db.closed
                    &&& final(self)@.txn == old(self)@.txn
                    &&& final(self)@.flags == old(self)@.flags
                },
                None => {
                    &&& (old(self)@.db.next_id == 0xffff_ffff ==> r is None && *final(self)
                        == *old(self))
                    &&& (old(self)@.db.next_id != 0xffff_ffff ==> {
                        &&& r matches Some(rid) && rid.get() == old(self)@.db.next_id
                        &&& final(self)@.db.docs == old(self)@.db.docs.push(
                            DocView { id: old(self)@.db.next_id, ..doc@ },
                        )
                        &&& final(self)@.db.next_id == old(self)@.db.next_id + 1
                        &&& final(self)@.db.metadata == old(self)@.db.metadata
                        &&& final(self)@.db.closed == old(self)@.db.closed
                        &&& final(self)@.txn == old(self)@.txn
                        &&& final(self)@.flags == old(self)@.flags
                    })
                },
            },
    {
        proof {
            use_type_invariant(&self.base);
        }
        if self.base.closed {
            return None;
        }
        let ghost old_docs = self@.db.docs;
        let n = self.base.docs_len();
        let mut i: usize = 0;
        while i < n
            invariant
                n == old_docs.len(),
                old_docs == self@.db.docs,
                *self == *old(self),
                !self@.db.closed,
                0 <= i <= n,
                forall|j: int| 0 <= j < i ==> !doc_has_term(#[trigger] old_docs[j], term@),
                db_wf(self@.db),
            decreases n - i,
        {
            let d = self.base.doc_at(i);
            if d.has_term(term) {
                let raw = d.id_raw();
                proof {
                    lemma_first_id_at(old_docs, term@, i as int);
                    assert(raw == old_docs[i as int].id);
                    assert(raw < self@.db.next_id);
                }
                self.delete_document_by_term(term);
                let ghost mid_docs = self@.db.docs;
                proof {
                    assert(mid_docs == filter_docs(old_docs, without_term(term@)));
                    lemma_filter_docs_props(old_docs, without_term(term@));
                }
                let id = DocId::from_nonzero(raw);
                self.replace_document(id, doc);
                proof {
                    assert forall|other: u32| other != raw implies doc_by_id(
                        self@.db.docs,
                        other,
                    ) == (match doc_by_id(old_docs, other) {
                        Some(d0) => if doc_has_term(d0, term@) {
                            None::<DocView>
                        } else {
                            Some(d0)
                        },
                        None => None::<DocView>,
                    }) by {
                        lemma_doc_by_id_filter(old_docs, without_term(term@), other);
                    }
                }
                return Some(id);
            }
            i += 1;
        }
        proof {
            lemma_first_id_none(old_docs, term@);
        }
        self.add_document(doc)
    }

    /// Delete every document carrying the given term; a closed handle
    /// leaves the state unchanged.
    pub fn delete_document_by_term(&mut self, term: &[u8])
        ensures
            old(self)@.db.closed ==> *final(self) == *old(self),
            !old(self)@.db.closed ==> {
                &&& final(self)@.db.docs == filter_docs(
                    old(self)@.db.docs,
                    without_term(term@),
                )
                &&& final(self)@.db.next_id == old(self)@.db.next_id
                &&& final(self)@.db.metadata == old(self)@.db.metadata
                &&& final(self)@.db.closed == old(self)@.db.closed
                &&& final(self)@.txn == old(self)@.txn
                &&& final(self)@.flags == old(self)@.flags
            },
    {
        proof {
            use_type_invariant(&self.base);
        }
        if self.base.closed {
            return ;
        }
        let mut tmp = Database::empty();
        core::mem::swap(&mut self.base, &mut tmp);
        proof {
            use_type_invariant(&tmp);
        }
        let Database { docs, metadata, next_id, closed } = tmp;
        let ghost old_docs = docs_view(docs@);
        let ghost p = without_term(term@);
        let mut kept: Vec<Document> = Vec::new();
        let n = docs.len();
        let mut i: usize = 0;
        while i < n
            invariant
                n == docs@.len(),
                0 <= i <= n,
                old_docs == docs_view(docs@),
                p == without_term(term@),
                docs_view(kept@) == filter_docs(old_docs.take(i as int), p),
            decreases n - i,
        {
            proof {
                lemma_filter_docs_take_step(old_docs, p, i as int);
                assert(old_docs[i as int] == docs@[i as int]@);
            }
            if !docs[i].has_term(term) {
                let ghost pre = kept@;
                let d = docs[i].snapshot();
                kept.push(d);
                proof {
                    assert(docs_view(kept@) =~= docs_view(pre).push(d@));
                }
            }
            i += 1;
        }
        proof {
            assert(old_docs.take(n as int) =~= old_docs);
            lemma_filter_docs_props(old_docs, p);
            assert(docs_view(kept@) == filter_docs(old_docs, p));
        }
        self.base = Database { docs: kept, metadata, next_id, closed };
    }

    /// Store `value` under `key` in the index's metadata; a closed handle
    /// leaves the state unchanged.
    pub fn set_metadata(&mut self, key: &[u8], value: &[u8])
        ensures
            old(self)@.db.closed ==> *final(self) == *old(self),
            !old(self)@.db.closed ==> {
                &&& metadata_in(final(self)@.db.metadata, key@) == value@
                &&& forall|other: Seq<u8>|
                    other != key@ ==> metadata_in(final(self)@.db.metadata, other) == metadata_in(
                        old(self)@.db.metadata,
                        other,
                    )
                &&& final(self)@.db.docs == old(self)@.db.docs
                &&& final(self)@.db.next_id == old(self)@.db.next_id
                &&& final(self)@.db.closed == old(self)@.db.closed
                &&& final(self)@.txn == old(self)@.txn
                &&& final(self)@.flags == old(self)@.flags
            },
    {
        proof {
            use_type_invariant(&self.base);
        }
        if self.base.closed {
            return ;
        }
        let mut tmp = Database::empty();
        core::mem::swap(&mut self.base, &mut tmp);
        proof {
            use_type_invariant(&tmp);
        }
        let Database { docs, mut metadata, next_id, closed } = tmp;
        let ghost old_md = metadata_view(metadata@);
        let found = find_key_idx(&metadata, key);
        match found {
            Some(fi) => {
                proof {
                    lemma_unique_key_index(old_md, key@, fi as int);
                }
                let e = &mut metadata[fi];
                e.value = slice_to_vec(value);
                proof {
                    let new_md = metadata_view(metadata@);
                    assert(new_md =~= old_md.update(fi as int, (key@, value@)));
                    lemma_meta_update_entry(old_md, new_md, fi as int);
                }
            },
            None => {
                metadata.push(
                    MetaEntry { key: slice_to_vec(key), value: slice_to_vec(value) },
                );
                proof {
                    let new_md = metadata_view(metadata@);
                    assert(new_md =~= old_md.push((key@, value@)));
                    lemma_meta_push_entry(old_md, new_md, key@);
                }
            },
        }
        self.base = Database { docs, metadata, next_id, closed };
    }

    /// Run `f` inside a transaction: begin, hand the index to `f`, and
    /// complete the transaction around what `f` hands back (keeping its
    /// changes). The index goes through `f` by value, since the verifier
    /// does not take closures over mutable references.
    pub fn transaction<F: FnOnce(WritableDatabase) -> WritableDatabase>(
        &mut self,
        flushed: Option<bool>,
        f: F,
    )
        requires
            forall|w: WritableDatabase|
                w@ == (WdbView {
                    db: old(self)@.db,
                    txn: if old(self)@.db.closed || old(self)@.txn is Some {
                        old(self)@.txn
                    } else {
                        Some(old(self)@.db)
                    },
                    flags: old(self)@.flags,
                }) ==> call_requires(f, (w,)),
        ensures
            exists|w: WritableDatabase, out: WritableDatabase|
                {
                    &&& w@ == (WdbView {
                        db: old(self)@.db,
                        txn: if old(self)@.db.closed || old(self)@.txn is Some {
                            old(self)@.txn
                        } else {
                            Some(old(self)@.db)
                        },
                        flags: old(self)@.flags,
                    })
                    &&& #[trigger] call_ensures(f, (w,), out)
                    &&& final(self)@.db == out@.db
                    &&& final(self)@.txn is None
                    &&& final(self)@.flags == out@.flags
                },
    {
        self.begin_transaction(flushed);
        let mut tmp = WritableDatabase::inmemory();
        core::mem::swap(self, &mut tmp);
        let ghost begun = tmp;
        let result = f(tmp);
        let ghost handed_back = result;
        let mut result = result;
        core::mem::swap(self, &mut result);
        self.commit_transaction();
        proof {
            assert(call_ensures(f, (begun,), handed_back));
        }
    }

    /// Begin a transaction: remember the state to roll back to. With a
    /// transaction already in progress, or on a closed handle, the state
    /// is unchanged. The `flushed` choice belongs to the engine's disk
    /// backends; the in-memory backend records it nowhere.
    pub fn begin_transaction(&mut self, flushed: Option<bool>)
        ensures
            old(self)@.db.closed || old(self)@.txn is Some ==> *final(self) == *old(self),
            !(old(self)@.db.closed || old(self)@.txn is Some) ==> {
                &&& final(self)@.db == old(self)@.db
                &&& final(self)@.txn == Some(old(self)@.db)
                &&& final(self)@.flags == old(self)@.flags
            },
    {
        if self.base.closed {
            return ;
        }
        match self.txn {
            Some(_) => {},
            None => {
                self.txn = Some(self.base.clone());
            },
        }
    }

    /// Abort the transaction in progress, restoring the remembered state;
    /// without one, the state is unchanged.
    pub fn cancel_transaction(&mut self)
        ensures
            old(self)@.txn is None ==> *final(self) == *old(self),
            old(self)@.txn matches Some(t) ==> {
                &&& final(self)@.db == t
                &&& final(self)@.txn is None
                &&& final(self)@.flags == old(self)@.flags
            },
    {
        let mut taken: Option<Database> = None;
        core::mem::swap(&mut self.txn, &mut taken);
        match taken {
            Some(saved) => {
                self.base = saved;
            },
            None => {},
        }
    }

    /// Complete the transaction in progress, keeping the changes made
    /// inside it; without one, the state is unchanged.
    pub fn commit_transaction(&mut self)
        ensures
            final(self)@.db == old(self)@.db,
            final(self)@.txn is None,
            final(self)@.flags == old(self)@.flags,
    {
        self.txn = None;
    }
}

impl Default for WritableDatabase {
    /// A fresh, writable in-memory index, as [`WritableDatabase::inmemory`]
    /// builds it.
    fn default() -> (r: WritableDatabase)
        ensures
            r@.db.docs == Seq::<DocView>::empty(),
            r@.db.next_id == 1,
            !r@.db.closed,
            r@.txn is None,
    {
        WritableDatabase::inmemory()
    }
}


/// The index of the metadata entry holding `key`, if any.
fn find_key_idx(md: &Vec<MetaEntry>, key: &[u8]) -> (r: Option<usize>)
    ensures
        r matches Some(i) ==> 0 <= i < md@.len() && metadata_view(md@)[i as int].0 == key@,
        r is None ==> !has_key_in(metadata_view(md@), key@),
{
    let n = md.len();
    let mut i: usize = 0;
    while i < n
        invariant
            n == md@.len(),
            0 <= i <= n,
            forall|j: int| 0 <= j < i ==> metadata_view(md@)[j].0 != key@,
        decreases n - i,
    {
        if bytes_eq(md[i].key.as_slice(), key) {
            proof {
                assert(metadata_view(md@)[i as int].0 == key@);
            }
            return Some(i);
        }
        i += 1;
    }
    proof {
        if has_key_in(metadata_view(md@), key@) {
            let j = key_index_of(metadata_view(md@), key@);
            assert(0 <= j < md@.len() && metadata_view(md@)[j].0 == key@);
        }
    }
    None
}

/// Updating one metadata entry in place (same key) keeps keys unique and
/// leaves every other key unchanged.
proof fn lemma_meta_update_entry(
    old_md: Seq<(Seq<u8>, Seq<u8>)>,
    new_md: Seq<(Seq<u8>, Seq<u8>)>,
    i: int,
)
    requires
        keys_unique(old_md),
        0 <= i < old_md.len(),
        new_md == old_md.update(i, new_md[i]),
        new_md.len() == old_md.len(),
        new_md[i].0 == old_md[i].0,
    ensures
        keys_unique(new_md),
        forall|s: Seq<u8>| s != old_md[i].0 ==> metadata_in(new_md, s) == metadata_in(old_md, s),
        metadata_in(new_md, old_md[i].0) == new_md[i].1,
{
    assert(forall|j: int| 0 <= j < new_md.len() ==> new_md[j].0 == old_md[j].0);
    lemma_unique_key_index(new_md, new_md[i].0, i);
    assert forall|s: Seq<u8>| s != old_md[i].0 implies metadata_in(new_md, s) == metadata_in(
        old_md,
        s,
    ) by {
        if has_key_in(old_md, s) {
            let j = key_index_of(old_md, s);
            assert(j != i);
            lemma_unique_key_index(new_md, s, j);
        } else {
            if has_key_in(new_md, s) {
                let j = key_index_of(new_md, s);
                assert(old_md[j].0 == s);
            }
        }
    }
}

/// Appending a metadata entry for a key not yet present keeps keys unique
/// and leaves every other key unchanged.
proof fn lemma_meta_push_entry(
    old_md: Seq<(Seq<u8>, Seq<u8>)>,
    new_md: Seq<(Seq<u8>, Seq<u8>)>,
    key: Seq<u8>,
)
    requires
        keys_unique(old_md),
        !has_key_in(old_md, key),
        new_md.len() == old_md.len() + 1,
        new_md == old_md.push(new_md.last()),
        new_md.last().0 == key,
    ensures
        keys_unique(new_md),
        forall|s: Seq<u8>| s != key ==> metadata_in(new_md, s) == metadata_in(old_md, s),
        metadata_in(new_md, key) == new_md.last().1,
{
    assert(forall|j: int| 0 <= j < old_md.len() ==> new_md[j] == old_md[j]);
    assert(forall|j: int| 0 <= j < old_md.len() ==> old_md[j].0 != key);
    lemma_unique_key_index(new_md, key, old_md.len() as int);
    assert forall|s: Seq<u8>| s != key implies metadata_in(new_md, s) == metadata_in(
        old_md,
        s,
    ) by {
        if has_key_in(old_md, s) {
            let j = key_index_of(old_md, s);
            lemma_unique_key_index(new_md, s, j);
        } else {
            if has_key_in(new_md, s) {
                let j = key_index_of(new_md, s);
                assert(0 <= j < new_md.len() && new_md[j].0 == s);
                assert(j == old_md.len());
            }
        }
    }
}

/// Replacing a stored document in place (same identifier) keeps the order
/// well-formed and leaves every other identifier's document unchanged.
proof fn lemma_docs_update_entry(old_docs: Seq<DocView>, new_docs: Seq<DocView>, i: int)
    requires
        forall|j: int| 0 <= j < old_docs.len() ==> (#[trigger] old_docs[j]).id != 0,
        forall|j: int, k: int| 0 <= j < k < old_docs.len() ==> old_docs[j].id < old_docs[k].id,
        0 <= i < old_docs.len(),
        new_docs == old_docs.update(i, new_docs[i]),
        new_docs.len() == old_docs.len(),
        new_docs[i].id == old_docs[i].id,
    ensures
        forall|j: int| 0 <= j < new_docs.len() ==> (#[trigger] new_docs[j]).id != 0,
        forall|j: int, k: int| 0 <= j < k < new_docs.len() ==> new_docs[j].id < new_docs[k].id,
        forall|j: int| 0 <= j < new_docs.len() ==> (#[trigger] new_docs[j]).id == old_docs[j].id,
        doc_by_id(new_docs, new_docs[i].id) == Some(new_docs[i]),
        forall|other: u32|
            other != new_docs[i].id ==> doc_by_id(new_docs, other) == doc_by_id(old_docs, other),
{
    assert(forall|j: int| 0 <= j < new_docs.len() ==> (#[trigger] new_docs[j]).id == old_docs[j].id);
    lemma_unique_doc_index(new_docs, new_docs[i].id, i);
    assert forall|other: u32| other != new_docs[i].id implies doc_by_id(new_docs, other)
        == doc_by_id(old_docs, other) by {
        if has_doc_id(old_docs, other) {
            let j = doc_index_of(old_docs, other);
            assert(j != i);
            lemma_unique_doc_index(new_docs, other, j);
        } else {
            if has_doc_id(new_docs, other) {
                let j = doc_index_of(new_docs, other);
                assert(old_docs[j].id == other);
            }
        }
    }
}

/// Inserting a document at its ordered position keeps the order
/// well-formed and leaves every other identifier's document unchanged.
proof fn lemma_docs_insert_entry(old_docs: Seq<DocView>, new_docs: Seq<DocView>, pos: int, id: u32)
    requires
        forall|j: int| 0 <= j < old_docs.len() ==> (#[trigger] old_docs[j]).id != 0,
        forall|j: int, k: int| 0 <= j < k < old_docs.len() ==> old_docs[j].id < old_docs[k].id,
        0 <= pos <= old_docs.len(),
        new_docs.len() == old_docs.len() + 1,
        new_docs == old_docs.insert(pos, new_docs[pos]),
        new_docs[pos].id == id,
        id != 0,
        forall|j: int| 0 <= j < pos ==> (#[trigger] old_docs[j]).id < id,
        forall|j: int| pos <= j < old_docs.len() ==> (#[trigger] old_docs[j]).id > id,
    ensures
        forall|j: int| 0 <= j < new_docs.len() ==> (#[trigger] new_docs[j]).id != 0,
        forall|j: int, k: int| 0 <= j < k < new_docs.len() ==> new_docs[j].id < new_docs[k].id,
        doc_by_id(new_docs, id) == Some(new_docs[pos]),
        forall|other: u32|
            other != id ==> doc_by_id(new_docs, other) == doc_by_id(old_docs, other),
        forall|j: int|
            0 <= j < new_docs.len() ==> new_docs[j].id == id || (exists|k: int|
                0 <= k < old_docs.len() && new_docs[j] == old_docs[k]),
{
    assert(forall|j: int| 0 <= j < pos ==> new_docs[j] == old_docs[j]);
    assert(forall|j: int| pos < j < new_docs.len() ==> new_docs[j] == old_docs[j - 1]);
    assert forall|j: int, k: int| 0 <= j < k < new_docs.len() implies new_docs[j].id
        < new_docs[k].id by {
        if j < pos && k < pos {
        } else if j < pos && k == pos {
            assert(new_docs[j] == old_docs[j]);
        } else if j < pos && k > pos {
            assert(new_docs[k] == old_docs[k - 1]);
            if k - 1 < pos {
                assert(old_docs[j].id < id);
                assert(old_docs[k - 1].id > id || old_docs[k - 1].id < id || old_docs[k - 1].id
                    == id);
                assert(j <= k - 1);
                if j < k - 1 {
                    assert(old_docs[j].id < old_docs[k - 1].id);
                }
            } else {
                assert(old_docs[k - 1].id > id);
                assert(old_docs[j].id < id);
            }
        } else if j == pos {
            assert(new_docs[k] == old_docs[k - 1]);
            assert(pos <= k - 1);
            assert(old_docs[k - 1].id > id);
        } else {
            assert(new_docs[j] == old_docs[j - 1] && new_docs[k] == old_docs[k - 1]);
            assert(old_docs[j - 1].id < old_docs[k - 1].id);
        }
    }
    assert forall|j: int| 0 <= j < new_docs.len() implies (#[trigger] new_docs[j]).id != 0 by {
        if j < pos {
            assert(new_docs[j] == old_docs[j]);
        } else if j > pos {
            assert(new_docs[j] == old_docs[j - 1]);
        }
    }
    lemma_unique_doc_index(new_docs, id, pos);
    assert forall|other: u32| other != id implies doc_by_id(new_docs, other) == doc_by_id(
        old_docs,
        other,
    ) by {
        if has_doc_id(old_docs, other) {
            let j = doc_index_of(old_docs, other);
            if j < pos {
                lemma_unique_doc_index(new_docs, other, j);
            } else {
                assert(new_docs[j + 1] == old_docs[j]);
                lemma_unique_doc_index(new_docs, other, j + 1);
            }
        } else {
            if has_doc_id(new_docs, other) {
                let j = doc_index_of(new_docs, other);
                assert(new_docs[j].id == other);
                if j < pos {
                    assert(old_docs[j].id == other);
                } else if j > pos {
                    assert(old_docs[j - 1].id == other);
                }
            }
        }
    }
    assert forall|j: int|
        0 <= j < new_docs.len() implies new_docs[j].id == id || (exists|k: int|
            0 <= k < old_docs.len() && new_docs[j] == old_docs[k]) by {
        if j < pos {
            assert(new_docs[j] == old_docs[j]);
        } else if j > pos {
            assert(new_docs[j] == old_docs[j - 1]);
        }
    }
}

/// Removing a stored document keeps the order well-formed, drops its
/// identifier, and leaves every other identifier's document unchanged.
proof fn lemma_docs_remove_entry(old_docs: Seq<DocView>, new_docs: Seq<DocView>, i: int)
    requires
        forall|j: int| 0 <= j < old_docs.len() ==> (#[trigger] old_docs[j]).id != 0,
        forall|j: int, k: int| 0 <= j < k < old_docs.len() ==> old_docs[j].id < old_docs[k].id,
        0 <= i < old_docs.len(),
        new_docs == old_docs.remove(i),
    ensures
        forall|j: int| 0 <= j < new_docs.len() ==> (#[trigger] new_docs[j]).id != 0,
        forall|j: int, k: int| 0 <= j < k < new_docs.len() ==> new_docs[j].id < new_docs[k].id,
        forall|j: int|
            0 <= j < new_docs.len() ==> exists|k: int|
                0 <= k < old_docs.len() && #[trigger] new_docs[j] == #[trigger] old_docs[k],
        doc_by_id(new_docs, old_docs[i].id) is None,
        forall|other: u32|
            other != old_docs[i].id ==> doc_by_id(new_docs, other) == doc_by_id(old_docs, other),
{
    let id = old_docs[i].id;
    assert(forall|j: int| 0 <= j < i ==> new_docs[j] == old_docs[j]);
    assert(forall|j: int| i <= j < new_docs.len() ==> new_docs[j] == old_docs[j + 1]);
    assert forall|j: int, k: int| 0 <= j < k < new_docs.len() implies new_docs[j].id
        < new_docs[k].id by {
        let j0 = if j < i {
            j
        } else {
            j + 1
        };
        let k0 = if k < i {
            k
        } else {
            k + 1
        };
        assert(new_docs[j] == old_docs[j0] && new_docs[k] == old_docs[k0]);
    }
    assert forall|j: int| 0 <= j < new_docs.len() implies (#[trigger] new_docs[j]).id != 0 by {
        if j < i {
            assert(new_docs[j] == old_docs[j]);
        } else {
            assert(new_docs[j] == old_docs[j + 1]);
        }
    }
    assert forall|j: int|
        0 <= j < new_docs.len() implies exists|k: int|
            0 <= k < old_docs.len() && #[trigger] new_docs[j] == #[trigger] old_docs[k] by {
        if j < i {
            assert(new_docs[j] == old_docs[j]);
        } else {
            assert(new_docs[j] == old_docs[j + 1]);
        }
    }
    assert(!has_doc_id(new_docs, id)) by {
        if has_doc_id(new_docs, id) {
            let j = doc_index_of(new_docs, id);
            let j0 = if j < i {
                j
            } else {
                j + 1
            };
            assert(old_docs[j0].id == id && old_docs[i].id == id && j0 != i);
            if j0 < i {
                assert(old_docs[j0].id < old_docs[i].id);
            } else {
                assert(old_docs[i].id < old_docs[j0].id);
            }
        }
    }
    assert forall|other: u32| other != id implies doc_by_id(new_docs, other) == doc_by_id(
        old_docs,
        other,
    ) by {
        if has_doc_id(old_docs, other) {
            let j = doc_index_of(old_docs, other);
            assert(j != i);
            if j < i {
                lemma_unique_doc_index(new_docs, other, j);
            } else {
                assert(new_docs[j - 1] == old_docs[j]);
                lemma_unique_doc_index(new_docs, other, j - 1);
            }
        } else {
            if has_doc_id(new_docs, other) {
                let j = doc_index_of(new_docs, other);
                let j0 = if j < i {
                    j
                } else {
                    j + 1
                };
                assert(old_docs[j0].id == other);
            }
        }
    }
}

/// One step of filtering: extending the input by one document extends the
/// filtered result by that document exactly when it satisfies the
/// predicate.
pub proof fn lemma_filter_docs_take_step(s: Seq<DocView>, p: spec_fn(DocView) -> bool, i: int)
    requires
        0 <= i < s.len(),
    ensures
        filter_docs(s.take(i + 1), p) == (if p(s[i]) {
            filter_docs(s.take(i), p).push(s[i])
        } else {
            filter_docs(s.take(i), p)
        }),
{
    assert(s.take(i + 1).drop_last() =~= s.take(i));
    assert(s.take(i + 1).last() == s[i]);
}

/// Filtering keeps well-formed document order: every kept document is one
/// of the originals, identifiers stay non-zero and strictly ascending.
proof fn lemma_filter_docs_props(s: Seq<DocView>, p: spec_fn(DocView) -> bool)
    requires
        forall|j: int| 0 <= j < s.len() ==> (#[trigger] s[j]).id != 0,
        forall|j: int, k: int| 0 <= j < k < s.len() ==> s[j].id < s[k].id,
    ensures
        forall|j: int| 0 <= j < filter_docs(s, p).len() ==> (#[trigger] filter_docs(s, p)[j]).id
            != 0,
        forall|j: int, k: int|
            0 <= j < k < filter_docs(s, p).len() ==> filter_docs(s, p)[j].id < filter_docs(
                s,
                p,
            )[k].id,
        forall|j: int|
            0 <= j < filter_docs(s, p).len() ==> exists|k: int|
                0 <= k < s.len() && #[trigger] filter_docs(s, p)[j] == #[trigger] s[k],
        forall|j: int| 0 <= j < filter_docs(s, p).len() ==> p(#[trigger] filter_docs(s, p)[j]),
    decreases s.len(),
{
    if s.len() > 0 {
        let d = s.drop_last();
        lemma_filter_docs_props(d, p);
        let fd = filter_docs(d, p);
        let f = filter_docs(s, p);
        assert forall|j: int|
            0 <= j < f.len() implies exists|k: int| 0 <= k < s.len() && #[trigger] f[j] == #[trigger] s[k] by {
            if j < fd.len() {
                assert(f[j] == fd[j]);
                let k = choose|k: int| 0 <= k < d.len() && fd[j] == d[k];
                assert(f[j] == s[k]);
            } else {
                assert(f[j] == s.last());
                assert(f[j] == s[s.len() - 1]);
            }
        }
        assert forall|j: int, k: int| 0 <= j < k < f.len() implies f[j].id < f[k].id by {
            if k < fd.len() {
                assert(f[j] == fd[j] && f[k] == fd[k]);
            } else {
                assert(f[k] == s.last());
                assert(f[j] == fd[j]);
                let k0 = choose|k0: int| 0 <= k0 < d.len() && fd[j] == d[k0];
                assert(s[k0].id < s[s.len() - 1].id);
            }
        }
        assert forall|j: int| 0 <= j < f.len() implies (#[trigger] f[j]).id != 0 by {
            let k = choose|k: int| 0 <= k < s.len() && f[j] == s[k];
            assert(s[k].id != 0);
        }
        assert forall|j: int| 0 <= j < f.len() implies p(#[trigger] f[j]) by {
            if j < fd.len() {
                assert(f[j] == fd[j]);
            } else {
                assert(f[j] == s.last());
            }
        }
    }
}

/// A document the predicate keeps is in the filtered sequence.
proof fn lemma_filter_docs_complete(s: Seq<DocView>, p: spec_fn(DocView) -> bool, j: int)
    requires
        0 <= j < s.len(),
        p(s[j]),
    ensures
        filter_docs(s, p).contains(s[j]),
    decreases s.len(),
{
    let f = filter_docs(s, p);
    let fd = filter_docs(s.drop_last(), p);
    if j == s.len() - 1 {
        assert(f[fd.len() as int] == s.last());
        assert(f.contains(s[j]));
    } else {
        lemma_filter_docs_complete(s.drop_last(), p, j);
        let k = choose|k: int| 0 <= k < fd.len() && fd[k] == s.drop_last()[j];
        assert(s.drop_last()[j] == s[j]);
        assert(f[k] == s[j]);
        assert(f.contains(s[j]));
    }
}

/// Looking a document up by identifier after filtering: the document is
/// found exactly when it was stored and the predicate keeps it.
proof fn lemma_doc_by_id_filter(docs: Seq<DocView>, p: spec_fn(DocView) -> bool, id: u32)
    requires
        forall|j: int| 0 <= j < docs.len() ==> (#[trigger] docs[j]).id != 0,
        forall|j: int, k: int| 0 <= j < k < docs.len() ==> docs[j].id < docs[k].id,
    ensures
        doc_by_id(filter_docs(docs, p), id) == (match doc_by_id(docs, id) {
            Some(d) => if p(d) {
                Some(d)
            } else {
                None::<DocView>
            },
            None => None::<DocView>,
        }),
{
    let f = filter_docs(docs, p);
    lemma_filter_docs_props(docs, p);
    match doc_by_id(docs, id) {
        Some(d) => {
            let j = doc_index_of(docs, id);
            assert(docs[j] == d);
            if p(d) {
                lemma_filter_docs_complete(docs, p, j);
                let k = choose|k: int| 0 <= k < f.len() && f[k] == d;
                lemma_unique_doc_index(f, id, k);
            } else {
                assert(!has_doc_id(f, id)) by {
                    if has_doc_id(f, id) {
                        let k = doc_index_of(f, id);
                        assert(p(f[k]));
                        let k0 = choose|k0: int| 0 <= k0 < docs.len() && f[k] == docs[k0];
                        lemma_unique_doc_index(docs, id, k0);
                        assert(docs[k0] == d);
                    }
                }
            }
        },
        None => {
            assert(!has_doc_id(f, id)) by {
                if has_doc_id(f, id) {
                    let k = doc_index_of(f, id);
                    let k0 = choose|k0: int| 0 <= k0 < docs.len() && f[k] == docs[k0];
                    assert(docs[k0].id == id);
                }
            }
        },
    }
}

/// The identifier of the first stored document carrying the term, in
/// identifier order.
pub open spec fn first_id_with_term(docs: Seq<DocView>, t: Seq<u8>) -> Option<u32>
    decreases docs.len(),
{
    if docs.len() == 0 {
        None
    } else if doc_has_term(docs[0], t) {
        Some(docs[0].id)
    } else {
        first_id_with_term(docs.skip(1), t)
    }
}

/// The first carrier found by a front-to-back scan is what the spec names.
proof fn lemma_first_id_at(docs: Seq<DocView>, t: Seq<u8>, i: int)
    requires
        0 <= i < docs.len(),
        doc_has_term(docs[i], t),
        forall|j: int| 0 <= j < i ==> !doc_has_term(#[trigger] docs[j], t),
    ensures
        first_id_with_term(docs, t) == Some(docs[i].id),
    decreases i,
{
    if i == 0 {
    } else {
        assert(docs.skip(1)[i - 1] == docs[i]);
        assert(forall|j: int| 0 <= j < i - 1 ==> #[trigger] docs.skip(1)[j] == docs[j + 1]);
        lemma_first_id_at(docs.skip(1), t, i - 1);
    }
}

/// A scan that finds no carrier means the spec names none.
proof fn lemma_first_id_none(docs: Seq<DocView>, t: Seq<u8>)
    requires
        forall|j: int| 0 <= j < docs.len() ==> !doc_has_term(#[trigger] docs[j], t),
    ensures
        first_id_with_term(docs, t) is None,
    decreases docs.len(),
{
    if docs.len() > 0 {
        assert(forall|j: int|
            0 <= j < docs.skip(1).len() ==> #[trigger] docs.skip(1)[j] == docs[j + 1]);
        lemma_first_id_none(docs.skip(1), t);
    }
}


/// A well-formed document order cannot hold more documents than there are
/// identifiers.
pub proof fn lemma_docs_len_bound(docs: Seq<DocView>)
    requires
        forall|j: int| 0 <= j < docs.len() ==> (#[trigger] docs[j]).id != 0,
        forall|j: int, k: int| 0 <= j < k < docs.len() ==> docs[j].id < docs[k].id,
    ensures
        docs.len() <= 0xffff_ffff,
{
    if docs.len() > 0 {
        lemma_ids_at_least(docs, docs.len() - 1);
    }
}

/// Filtering never lengthens a sequence.
pub proof fn lemma_filter_docs_len(s: Seq<DocView>, p: spec_fn(DocView) -> bool)
    ensures
        filter_docs(s, p).len() <= s.len(),
    decreases s.len(),
{
    if s.len() > 0 {
        lemma_filter_docs_len(s.drop_last(), p);
    }
}

/// Predicates that agree pointwise filter alike.
pub proof fn lemma_filter_docs_congruence(
    s: Seq<DocView>,
    p1: spec_fn(DocView) -> bool,
    p2: spec_fn(DocView) -> bool,
)
    requires
        forall|d: DocView| #[trigger] p1(d) == #[trigger] p2(d),
    ensures
        filter_docs(s, p1) == filter_docs(s, p2),
    decreases s.len(),
{
    if s.len() > 0 {
        lemma_filter_docs_congruence(s.drop_last(), p1, p2);
    }
}

/// Upcast safety law: the base reference an upcast exposes carries exactly
/// the writable handle's stored state, so each read-only accessor answers
/// the same through the upcast as natively on the writable handle: the
/// document count, term presence, the metadata store and every stored
/// document agree.
pub proof fn lemma_upcast_fidelity(w: WdbView, base: DbView, key: Seq<u8>, term: Seq<u8>)
    requires
        base == w.db,
    ensures
        base.docs.len() == w.db.docs.len(),
        metadata_in(base.metadata, key) == metadata_in(w.db.metadata, key),
        (exists|j: int| 0 <= j < base.docs.len() && doc_has_term(#[trigger] base.docs[j], term))
            == (exists|j: int|
            0 <= j < w.db.docs.len() && doc_has_term(#[trigger] w.db.docs[j], term)),
        forall|id: u32| doc_by_id(base.docs, id) == doc_by_id(w.db.docs, id),
{
}

} // verus!
