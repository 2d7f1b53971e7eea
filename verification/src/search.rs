//! The search facade: running a query against an index and surfacing the
//! results.
//!
//! The model's retrieval is boolean: a search visits the stored documents
//! in ascending identifier order, keeps exactly those the query (and the
//! registered match filter, if any) accepts, and pages the result with
//! `first` and `maxitems`. Ranking and weighting belong to the engine and
//! stay outside the model: every match carries the unit weight and full
//! relevance. Match observers see every accepted document, in traversal
//! order, with no call reordered, batched or dropped.

use vstd::prelude::*;

use crate::cursor::SeqCursor;
use crate::db::{
    db_wf, filter_docs, lemma_docs_len_bound, lemma_filter_docs_congruence, lemma_filter_docs_len,
    lemma_filter_docs_take_step, Database, DbView,
};
use crate::doc::{doc_has_term, DocView, Document};
use crate::query::{query_matches, QView, Query};
use crate::DocId;

verus! {

/// The bit pattern (IEEE 754 binary64) of the unit weight the boolean
/// model assigns every match.
pub const UNIT_WEIGHT_BITS: u64 = 0x3ff0_0000_0000_0000;

/// An engine weight, carried as the bit pattern of its binary64 value.
#[derive(Debug, Clone, Copy, PartialEq, Eq, Structural)]
pub struct Weight {
    /// The IEEE 754 binary64 bit pattern of the weight.
    pub bits: u64,
}

/// A match filter: decides, per document, whether the document belongs in
/// the result set.
///
/// The spec method is the contract every implementation meets: the
/// decision is a function of the document alone, which is what makes the
/// callback bridge's fidelity provable.
pub trait MatchDecider {
    /// What the filter decides of a document.
    spec fn decide_spec(&self, doc: DocView) -> bool;

    /// Decide whether this document should be included in the result set.
    fn is_match(&self, doc: &Document) -> (r: bool)
        ensures
            r == self.decide_spec(doc@),
    ;
}

/// A match observer: accumulates information from each document the search
/// accepts, in traversal order.
///
/// `State` is the observer's accumulated information as a mathematical
/// value; `observed_spec` is the contract of one observation, and a search
/// leaves the observer in the fold of `observed_spec` over the accepted
/// documents.
pub trait MatchSpy: Sized {
    /// The observer's accumulated information, as a mathematical value.
    type State;

    /// The accumulated information this observer holds.
    spec fn state(&self) -> Self::State;

    /// One observation: the state after seeing one document.
    spec fn observed_spec(s: Self::State, doc: DocView, weight: Weight) -> Self::State;

    /// See one accepted document and its weight.
    fn observe(&mut self, doc: &Document, weight: Weight)
        ensures
            final(self).state() == Self::observed_spec(old(self).state(), doc@, weight),
    ;

    /// The observer's diagnostic name, as a mathematical value.
    spec fn name_spec(&self) -> Option<Seq<char>>;

    /// An optional human-readable name, used for diagnostics.
    fn name(&self) -> (r: Option<String>)
        ensures
            match r {
                Some(s) => self.name_spec() == Some(s@),
                None => self.name_spec() is None,
            },
    ;
}

/// An expansion filter: decides, per candidate term, whether the term may
/// be suggested for query expansion.
pub trait ExpandDecider {
    /// What the filter decides of a term.
    spec fn keep_spec(&self, term: Seq<u8>) -> bool;

    /// Decide whether this term should be kept.
    fn should_keep(&self, term: &[u8]) -> (r: bool)
        ensures
            r == self.keep_spec(term@),
    ;
}

/// The expansion filter that keeps every term: what expansion without a
/// registered filter uses.
pub struct KeepAll;

impl ExpandDecider for KeepAll {
    open spec fn keep_spec(&self, term: Seq<u8>) -> bool {
        true
    }

    fn should_keep(&self, term: &[u8]) -> (r: bool)
        ensures
            r == self.keep_spec(term@),
    {
        true
    }
}

/// The filter that keeps everything: what a search without a registered
/// match filter uses.
pub struct AcceptAll;

impl MatchDecider for AcceptAll {
    open spec fn decide_spec(&self, doc: DocView) -> bool {
        true
    }

    fn is_match(&self, doc: &Document) -> (r: bool)
        ensures
            r == self.decide_spec(doc@),
    {
        true
    }
}

/// The mathematical content of one match.
pub struct MatchView {
    /// The matched document's identifier.
    pub docid: u32,
    /// The match's position in the full result list.
    pub rank: u32,
    /// The weight's binary64 bit pattern.
    pub weight: u64,
    /// A snapshot of the matched document.
    pub doc: DocView,
}

/// One match: an accepted document with its identifier, rank and weight.
pub struct Match {
    docid: DocId,
    rank: u32,
    weight: Weight,
    doc: Document,
}

impl View for Match {
    type V = MatchView;

    closed spec fn view(&self) -> MatchView {
        MatchView {
            docid: self.docid.get(),
            rank: self.rank,
            weight: self.weight.bits,
            doc: self.doc@,
        }
    }
}

impl Match {
    /// The matched document's identifier.
    pub fn docid(&self) -> (r: DocId)
        ensures
            r.get() == self@.docid,
    {
        self.docid
    }

    /// A snapshot of the matched document.
    pub fn document(&self) -> (r: Document)
        ensures
            r@ == self@.doc,
    {
        self.doc.snapshot()
    }

    /// The match's position in the full result list.
    pub fn rank(&self) -> (r: u32)
        ensures
            r == self@.rank,
    {
        self.rank
    }

    /// The match's weight. The boolean model assigns every match the unit
    /// weight.
    pub fn weight(&self) -> (r: Weight)
        ensures
            r.bits == self@.weight,
    {
        self.weight
    }

    /// The match's relevance as a percentage. Boolean retrieval has no
    /// grades of relevance: every match is a full match.
    pub fn percent(&self) -> (r: i32)
        ensures
            r == 100,
    {
        100
    }

    /// An owned copy of this match.
    fn duplicate(&self) -> (r: Match)
        ensures
            r@ == self@,
    {
        Match {
            docid: self.docid,
            rank: self.rank,
            weight: self.weight,
            doc: self.doc.snapshot(),
        }
    }
}

/// The views of a sequence of matches, element-wise.
pub open spec fn matches_view(ms: Seq<Match>) -> Seq<MatchView> {
    Seq::new(ms.len(), |k: int| ms[k]@)
}

/// The match built around the accepted document at rank `rank`.
pub open spec fn match_of(d: DocView, rank: int) -> MatchView {
    MatchView { docid: d.id, rank: rank as u32, weight: UNIT_WEIGHT_BITS, doc: d }
}

/// The full result list over the accepted documents, in traversal order.
pub open spec fn match_list(all: Seq<DocView>) -> Seq<MatchView> {
    Seq::new(all.len(), |k: int| match_of(all[k], k))
}

/// The predicate a plain search filters the stored documents with.
pub open spec fn match_pred(q: QView) -> spec_fn(DocView) -> bool {
    |d: DocView| query_matches(q, d)
}

/// The predicate a search with a match filter uses: the query accepts the
/// document and the filter keeps it.
pub open spec fn match_pred_with<D: MatchDecider>(q: QView, dec: D) -> spec_fn(DocView) -> bool {
    |d: DocView| query_matches(q, d) && dec.decide_spec(d)
}

/// The page `[first, first + maxitems)` of the full result list over the
/// accepted documents `all`, clipped to what exists.
pub open spec fn mset_window(all: Seq<DocView>, first: int, maxitems: int) -> Seq<MatchView> {
    let lo = if first < all.len() {
        first
    } else {
        all.len() as int
    };
    let hi = if first + maxitems < all.len() {
        first + maxitems
    } else {
        all.len() as int
    };
    match_list(all).subrange(lo, hi)
}

/// The observer's state after seeing the accepted documents `docs`, in
/// order, each with the unit weight.
pub open spec fn spy_after<S: MatchSpy>(s: S::State, docs: Seq<DocView>) -> S::State
    decreases docs.len(),
{
    if docs.len() == 0 {
        s
    } else {
        S::observed_spec(
            spy_after::<S>(s, docs.drop_last()),
            docs.last(),
            Weight { bits: UNIT_WEIGHT_BITS },
        )
    }
}

/// A list of search results.
pub struct MSet {
    items: Vec<Match>,
}

impl View for MSet {
    type V = Seq<MatchView>;

    closed spec fn view(&self) -> Seq<MatchView> {
        matches_view(self.items@)
    }
}

impl MSet {
    /// Result lists are never longer than the identifier space.
    #[verifier::type_invariant]
    pub open spec fn inv(self) -> bool {
        self@.len() <= 0xffff_ffff
    }

    /// The number of matches in this result list.
    pub fn size(&self) -> (r: u32)
        ensures
            r == self@.len(),
    {
        proof {
            use_type_invariant(self);
        }
        self.items.len() as u32
    }

    /// Whether this result list is empty.
    pub fn empty(&self) -> (r: bool)
        ensures
            r == (self@.len() == 0),
    {
        self.items.len() == 0
    }

    /// A cursor pair over the matches of this result list.
    pub fn matches(&self) -> (r: SeqCursor<'_, Match>)
        ensures
            r.wf(),
            matches_view(r.items_view()) == self@,
            r.fwd_pos() == 0,
            r.rev_pos() == self@.len(),
    {
        SeqCursor::new(&self.items)
    }

    /// Convert a weight to a percentage. Boolean retrieval has no grades
    /// of relevance: any weight converts to a full match.
    pub fn convert_to_percent(&self, weight: Weight) -> (r: i32)
        ensures
            r == 100,
    {
        100
    }

    /// The number of matches in this result list whose document carries
    /// the given term.
    pub fn termfreq(&self, term: &[u8]) -> (r: u32)
        ensures
            r as int == count_with_term(self@, term@),
    {
        proof {
            use_type_invariant(self);
            lemma_count_with_term_bound(self@, term@);
        }
        let n = self.items.len();
        let mut count: usize = 0;
        let mut i: usize = 0;
        while i < n
            invariant
                n == self@.len(),
                0 <= i <= n,
                count as int == count_with_term(self@.take(i as int), term@),
                count <= i,
            decreases n - i,
        {
            proof {
                assert(self@.take(i as int + 1).drop_last() =~= self@.take(i as int));
                assert(self@.take(i as int + 1).last() == self@[i as int]);
            }
            if self.items[i].doc.has_term(term) {
                count += 1;
            }
            i += 1;
        }
        proof {
            assert(self@.take(n as int) =~= self@);
            lemma_count_with_term_bound(self@, term@);
        }
        count as u32
    }
}

/// How many of the matches carry the given term.
pub open spec fn count_with_term(ms: Seq<MatchView>, term: Seq<u8>) -> int
    decreases ms.len(),
{
    if ms.len() == 0 {
        0
    } else {
        count_with_term(ms.drop_last(), term) + (if doc_has_term(ms.last().doc, term) {
            1int
        } else {
            0int
        })
    }
}

/// The count never exceeds the number of matches.
proof fn lemma_count_with_term_bound(ms: Seq<MatchView>, term: Seq<u8>)
    ensures
        0 <= count_with_term(ms, term) <= ms.len(),
    decreases ms.len(),
{
    if ms.len() > 0 {
        lemma_count_with_term_bound(ms.drop_last(), term);
    }
}

/// A set of document identifiers marked relevant to the current search,
/// held in ascending order without repeats.
pub struct RSet {
    ids: Vec<u32>,
}

impl View for RSet {
    type V = Seq<u32>;

    closed spec fn view(&self) -> Seq<u32> {
        self.ids@
    }
}

impl RSet {
    /// The identifiers are non-zero and strictly ascending.
    #[verifier::type_invariant]
    pub open spec fn inv(self) -> bool {
        &&& forall|j: int| 0 <= j < self@.len() ==> self@[j] != 0
        &&& forall|j: int, k: int| 0 <= j < k < self@.len() ==> self@[j] < self@[k]
    }

    /// A fresh, empty relevance set.
    pub fn new() -> (r: RSet)
        ensures
            r@ == Seq::<u32>::empty(),
    {
        RSet { ids: Vec::new() }
    }

    /// Whether this relevance set is empty.
    pub fn empty(&self) -> (r: bool)
        ensures
            r == (self@.len() == 0),
    {
        self.ids.len() == 0
    }

    /// The number of identifiers in this relevance set.
    pub fn size(&self) -> (r: u32)
        ensures
            r == self@.len(),
    {
        proof {
            use_type_invariant(self);
            lemma_rset_len_bound(self@);
        }
        self.ids.len() as u32
    }

    /// Whether the document with the given identifier is marked relevant.
    pub fn contains_id(&self, id: DocId) -> (r: bool)
        ensures
            r == self@.contains(id.get()),
    {
        let raw = id.get_raw();
        let n = self.ids.len();
        let mut i: usize = 0;
        while i < n
            invariant
                n == self@.len(),
                0 <= i <= n,
                forall|j: int| 0 <= j < i ==> self@[j] != raw,
                raw == id.get(),
            decreases n - i,
        {
            if self.ids[i] == raw {
                proof {
                    assert(self@[i as int] == raw);
                }
                return true;
            }
            i += 1;
        }
        proof {
            if self@.contains(raw) {
                let j = choose|j: int| 0 <= j < self@.len() && self@[j] == raw;
            }
        }
        false
    }

    /// Whether the matched document is marked relevant.
    pub fn contains(&self, m: &Match) -> (r: bool)
        ensures
            r == self@.contains(m@.docid),
    {
        self.contains_id(m.docid())
    }

    /// Mark the document with the given identifier relevant.
    pub fn add_document_by_id(&mut self, id: DocId)
        ensures
            final(self)@.contains(id.get()),
            forall|other: u32|
                other != id.get() ==> final(self)@.contains(other) == old(self)@.contains(other),
    {
        proof {
            use_type_invariant(&*self);
        }
        let raw = id.get_raw();
        let n = self.ids.len();
        let mut i: usize = 0;
        while i < n
            invariant
                n == self@.len(),
                0 <= i <= n,
                *self == *old(self),
                raw == id.get(),
                raw != 0,
                forall|j: int| 0 <= j < i ==> self@[j] < raw,
                forall|j: int, k: int| 0 <= j < k < self@.len() ==> self@[j] < self@[k],
                forall|j: int| 0 <= j < self@.len() ==> self@[j] != 0,
            decreases n - i,
        {
            if self.ids[i] == raw {
                proof {
                    assert(self@[i as int] == raw);
                }
                return ;
            }
            if self.ids[i] > raw {
                proof {
                    assert forall|j: int| i as int <= j < self@.len() implies self@[j] > raw by {
                        if j > i as int {
                            assert(self@[i as int] < self@[j]);
                        }
                    }
                }
                self.insert_at(i, raw);
                return ;
            }
            i += 1;
        }
        self.insert_at(n, raw);
    }

    /// Put `raw` at its ordered position `at`.
    fn insert_at(&mut self, at: usize, raw: u32)
        requires
            at <= old(self)@.len(),
            raw != 0,
            forall|j: int| 0 <= j < at ==> old(self)@[j] < raw,
            forall|j: int| at <= j < old(self)@.len() ==> old(self)@[j] > raw,
        ensures
            final(self)@.contains(raw),
            forall|other: u32|
                other != raw ==> final(self)@.contains(other) == old(self)@.contains(other),
    {
        proof {
            use_type_invariant(&*self);
        }
        let ghost old_ids = self@;
        let mut ids: Vec<u32> = Vec::new();
        core::mem::swap(&mut self.ids, &mut ids);
        ids.insert(at, raw);
        proof {
            let pos = at as int;
            let new_ids = ids@;
            assert(new_ids == old_ids.insert(pos, raw));
            assert(new_ids.len() == old_ids.len() + 1);
            assert(forall|j: int| 0 <= j < pos ==> new_ids[j] == old_ids[j]);
            assert(forall|j: int| pos < j < new_ids.len() ==> new_ids[j] == old_ids[j - 1]);
            assert(new_ids[pos] == raw);
            assert forall|j: int, k: int| 0 <= j < k < new_ids.len() implies new_ids[j]
                < new_ids[k] by {
                if j < pos && k < pos {
                    assert(old_ids[j] < old_ids[k]);
                } else if j < pos && k == pos {
                } else if j < pos && k > pos {
                    if j < k - 1 {
                        assert(old_ids[j] < old_ids[k - 1]);
                    } else {
                        assert(old_ids[j] < raw && old_ids[k - 1] > raw);
                    }
                } else if j == pos {
                    assert(old_ids[k - 1] > raw);
                } else {
                    assert(old_ids[j - 1] < old_ids[k - 1]);
                }
            }
            assert forall|j: int| 0 <= j < new_ids.len() implies new_ids[j] != 0 by {
                if j < pos {
                    assert(new_ids[j] == old_ids[j]);
                } else if j > pos {
                    assert(new_ids[j] == old_ids[j - 1]);
                }
            }
            assert(new_ids.contains(raw));
            assert forall|other: u32| other != raw implies new_ids.contains(other)
                == old_ids.contains(other) by {
                if old_ids.contains(other) {
                    let j = choose|j: int| 0 <= j < old_ids.len() && old_ids[j] == other;
                    if j < pos {
                        assert(new_ids[j] == other);
                    } else {
                        assert(new_ids[j + 1] == other);
                    }
                    assert(new_ids.contains(other));
                }
                if new_ids.contains(other) {
                    let j = choose|j: int| 0 <= j < new_ids.len() && new_ids[j] == other;
                    if j < pos {
                        assert(old_ids[j] == other);
                        assert(old_ids.contains(other));
                    } else if j > pos {
                        assert(old_ids[j - 1] == other);
                        assert(old_ids.contains(other));
                    }
                }
            }
        }
        self.ids = ids;
    }

    /// Mark the matched document relevant.
    pub fn add_document(&mut self, m: &Match)
        ensures
            final(self)@.contains(m@.docid),
            forall|other: u32|
                other != m@.docid ==> final(self)@.contains(other) == old(self)@.contains(other),
    {
        self.add_document_by_id(m.docid());
    }

    /// Remove the document with the given identifier from the relevance
    /// set.
    pub fn remove_document_by_id(&mut self, id: DocId)
        ensures
            !final(self)@.contains(id.get()),
            forall|other: u32|
                other != id.get() ==> final(self)@.contains(other) == old(self)@.contains(other),
    {
        proof {
            use_type_invariant(&*self);
        }
        let raw = id.get_raw();
        let ghost old_ids = self@;
        let n = self.ids.len();
        let mut i: usize = 0;
        while i < n
            invariant
                n == self@.len(),
                0 <= i <= n,
                old_ids == self@,
                *self == *old(self),
                raw == id.get(),
                forall|j: int| 0 <= j < i ==> self@[j] != raw,
                forall|j: int, k: int| 0 <= j < k < self@.len() ==> self@[j] < self@[k],
                forall|j: int| 0 <= j < self@.len() ==> self@[j] != 0,
            decreases n - i,
        {
            if self.ids[i] == raw {
                let ghost pos = i as int;
                let mut ids: Vec<u32> = Vec::new();
                core::mem::swap(&mut self.ids, &mut ids);
                ids.remove(i);
                proof {
                    let new_ids = ids@;
                    assert(new_ids == old_ids.remove(pos));
                    assert(forall|j: int| 0 <= j < pos ==> new_ids[j] == old_ids[j]);
                    assert(forall|j: int|
                        pos <= j < new_ids.len() ==> new_ids[j] == old_ids[j + 1]);
                    assert forall|j: int, k: int| 0 <= j < k < new_ids.len() implies new_ids[j]
                        < new_ids[k] by {
                        let j0 = if j < pos {
                            j
                        } else {
                            j + 1
                        };
                        let k0 = if k < pos {
                            k
                        } else {
                            k + 1
                        };
                        assert(new_ids[j] == old_ids[j0] && new_ids[k] == old_ids[k0]);
                        assert(old_ids[j0] < old_ids[k0]);
                    }
                    assert forall|j: int| 0 <= j < new_ids.len() implies new_ids[j] != 0 by {
                        if j < pos {
                            assert(new_ids[j] == old_ids[j]);
                        } else {
                            assert(new_ids[j] == old_ids[j + 1]);
                        }
                    }
                    assert(!new_ids.contains(raw)) by {
                        if new_ids.contains(raw) {
                            let j = choose|j: int| 0 <= j < new_ids.len() && new_ids[j] == raw;
                            let j0 = if j < pos {
                                j
                            } else {
                                j + 1
                            };
                            assert(old_ids[j0] == raw && old_ids[pos] == raw && j0 != pos);
                            if j0 < pos {
                                assert(old_ids[j0] < old_ids[pos]);
                            } else {
                                assert(old_ids[pos] < old_ids[j0]);
                            }
                        }
                    }
                    assert forall|other: u32| other != raw implies new_ids.contains(other)
                        == old_ids.contains(other) by {
                        if old_ids.contains(other) {
                            let j = choose|j: int| 0 <= j < old_ids.len() && old_ids[j] == other;
                            if j < pos {
                                assert(new_ids[j] == other);
                            } else {
                                assert(j != pos);
                                assert(new_ids[j - 1] == other);
                            }
                            assert(new_ids.contains(other));
                        }
                        if new_ids.contains(other) {
                            let j = choose|j: int| 0 <= j < new_ids.len() && new_ids[j] == other;
                            let j0 = if j < pos {
                                j
                            } else {
                                j + 1
                            };
                            assert(old_ids[j0] == other);
                            assert(old_ids.contains(other));
                        }
                    }
                }
                self.ids = ids;
                return ;
            }
            i += 1;
        }
        proof {
            if self@.contains(raw) {
                let j = choose|j: int| 0 <= j < self@.len() && self@[j] == raw;
            }
        }
    }

    /// Remove the matched document from the relevance set.
    pub fn remove_document(&mut self, m: &Match)
        ensures
            !final(self)@.contains(m@.docid),
            forall|other: u32|
                other != m@.docid ==> final(self)@.contains(other) == old(self)@.contains(other),
    {
        self.remove_document_by_id(m.docid());
    }
}

impl Default for RSet {
    /// A fresh, empty relevance set.
    fn default() -> (r: RSet)
        ensures
            r@ == Seq::<u32>::empty(),
    {
        RSet::new()
    }
}

/// Ascending non-zero identifiers bound the length.
proof fn lemma_rset_len_bound(ids: Seq<u32>)
    requires
        forall|j: int| 0 <= j < ids.len() ==> ids[j] != 0,
        forall|j: int, k: int| 0 <= j < k < ids.len() ==> ids[j] < ids[k],
    ensures
        ids.len() <= 0xffff_ffff,
{
    if ids.len() > 0 {
        lemma_rset_ids_at_least(ids, ids.len() - 1);
    }
}

proof fn lemma_rset_ids_at_least(ids: Seq<u32>, j: int)
    requires
        forall|k: int| 0 <= k < ids.len() ==> ids[k] != 0,
        forall|k: int, l: int| 0 <= k < l < ids.len() ==> ids[k] < ids[l],
        0 <= j < ids.len(),
    ensures
        ids[j] >= j + 1,
    decreases j,
{
    if j > 0 {
        lemma_rset_ids_at_least(ids, j - 1);
    }
}

/// The primary interface for retrieving information from an index: holds
/// the query and runs searches against the borrowed read-only handle.
pub struct Enquire<'db> {
    db: &'db Database,
    query: Query,
}

impl<'db> Enquire<'db> {
    /// The searched index's content.
    pub closed spec fn db_view(self) -> DbView {
        self.db@
    }

    /// The current query.
    pub closed spec fn query_view(self) -> QView {
        self.query@
    }

    /// A new `Enquire` over the given index, with the match-nothing query.
    pub fn new(db: &'db Database) -> (r: Enquire<'db>)
        ensures
            r.db_view() == db@,
            r.query_view() == QView::MatchNothing,
    {
        Enquire { db, query: Query::match_nothing() }
    }

    /// The query currently associated with this `Enquire`.
    pub fn query(&self) -> (r: Query)
        ensures
            r@ == self.query_view(),
    {
        self.query.duplicate()
    }

    /// Set the query to run. The query-length hint `qlen` steers the
    /// engine's weighting, which the boolean model does not have; it is
    /// accepted and ignored.
    pub fn set_query(&mut self, query: &Query, qlen: Option<u32>)
        ensures
            final(self).db_view() == old(self).db_view(),
            final(self).query_view() == query@,
    {
        self.query = query.duplicate();
    }

    /// Run the query: the page `[first, first + maxitems)` of the matches,
    /// in ascending document-identifier order.
    pub fn mset(&self, first: u32, maxitems: u32) -> (r: MSet)
        ensures
            r@ == mset_window(
                filter_docs(self.db_view().docs, match_pred(self.query_view())),
                first as int,
                maxitems as int,
            ),
    {
        let r = self.mset_with_decider(first, maxitems, &AcceptAll);
        proof {
            lemma_filter_docs_congruence(
                self.db_view().docs,
                match_pred_with(self.query_view(), AcceptAll),
                match_pred(self.query_view()),
            );
        }
        r
    }

    /// Run the query with a match filter: only documents the filter keeps
    /// are accepted.
    pub fn mset_with_decider<D: MatchDecider>(&self, first: u32, maxitems: u32, decider: &D) -> (r:
        MSet)
        ensures
            r@ == mset_window(
                filter_docs(self.db_view().docs, match_pred_with(self.query_view(), *decider)),
                first as int,
                maxitems as int,
            ),
    {
        let full = self.collect_matches(decider);
        let ghost all = filter_docs(self.db_view().docs, match_pred_with(self.query_view(), *decider));
        proof {
            assert(matches_view(full@) == match_list(all));
            assert(match_list(all).len() == all.len());
            assert(matches_view(full@).len() == full@.len());
        }
        window_of(full, first, maxitems, Ghost(all))
    }

    /// Run the query with a match observer: the observer sees every
    /// accepted document, in traversal order, each with the unit weight —
    /// no call is reordered, batched or dropped. The returned page is the
    /// same one [`Enquire::mset`] gives.
    pub fn mset_observed<S: MatchSpy>(&self, first: u32, maxitems: u32, spy: &mut S) -> (r: MSet)
        ensures
            r@ == mset_window(
                filter_docs(self.db_view().docs, match_pred(self.query_view())),
                first as int,
                maxitems as int,
            ),
            final(spy).state() == spy_after::<S>(
                old(spy).state(),
                filter_docs(self.db_view().docs, match_pred(self.query_view())),
            ),
    {
        let ghost q = self.query_view();
        let ghost docs = self.db_view().docs;
        let ghost pred = match_pred(q);
        let ghost spy0 = spy.state();
        proof {
            use_type_invariant(self.db);
        }
        let n = self.db.docs_len();
        let mut full: Vec<Match> = Vec::new();
        let mut i: usize = 0;
        while i < n
            invariant
                n == docs.len(),
                docs == self.db_view().docs,
                q == self.query_view(),
                pred == match_pred(q),
                db_wf(self.db@),
                0 <= i <= n,
                matches_view(full@) == match_list(filter_docs(docs.take(i as int), pred)),
                full@.len() == filter_docs(docs.take(i as int), pred).len(),
                spy.state() == spy_after::<S>(spy0, filter_docs(docs.take(i as int), pred)),
            decreases n - i,
        {
            let d = self.db.doc_at(i);
            proof {
                lemma_filter_docs_take_step(docs, pred, i as int);
                lemma_filter_docs_len(docs.take(i as int), pred);
                assert(docs.take(i as int).len() == i as int);
                lemma_docs_len_bound(docs);
            }
            if self.query.matches(d) {
                let ghost kept_pre = filter_docs(docs.take(i as int), pred);
                let rank = full.len();
                let m = Match {
                    docid: DocId::from_nonzero(d.id_raw()),
                    rank: rank as u32,
                    weight: Weight { bits: UNIT_WEIGHT_BITS },
                    doc: d.snapshot(),
                };
                spy.observe(d, Weight { bits: UNIT_WEIGHT_BITS });
                let ghost pre = full@;
                full.push(m);
                proof {
                    let kept = filter_docs(docs.take(i as int + 1), pred);
                    assert(kept == kept_pre.push(d@));
                    assert(kept.drop_last() =~= kept_pre);
                    assert(kept.last() == d@);
                    assert(m@ == match_of(d@, rank as int));
                    assert forall|k: int| 0 <= k < kept.len() implies matches_view(full@)[k]
                        == match_list(kept)[k] by {
                        if k < rank as int {
                            assert(full@[k] == pre[k]);
                            assert(matches_view(pre)[k] == match_list(kept_pre)[k]);
                            assert(kept[k] == kept_pre[k]);
                        } else {
                            assert(full@[k] == m);
                        }
                    }
                    assert(matches_view(full@) =~= match_list(kept));
                    assert(spy.state() == spy_after::<S>(spy0, kept));
                }
            } else {
                proof {
                    assert(filter_docs(docs.take(i as int + 1), pred) == filter_docs(
                        docs.take(i as int),
                        pred,
                    ));
                }
            }
            i += 1;
        }
        let ghost all = filter_docs(docs, pred);
        proof {
            assert(docs.take(n as int) =~= docs);
            assert(matches_view(full@) == match_list(all));
            assert(match_list(all).len() == all.len());
            assert(matches_view(full@).len() == full@.len());
        }
        window_of(full, first, maxitems, Ghost(all))
    }


    /// Suggest terms for expanding the query: the terms carried by the
    /// documents marked relevant in `rset`, each kept only if the
    /// expansion filter keeps it, without repeats, at most `maxitems` of
    /// them. When fewer than `maxitems` come back, every such term is
    /// there; ranking among suggestions is the engine's relevance
    /// weighting, which is outside this model (candidates are taken in
    /// identifier, then term order).
    pub fn eset<D: ExpandDecider>(&self, maxitems: u32, rset: &RSet, decider: &D) -> (r: ESet)
        ensures
            r@.len() <= maxitems,
            forall|j: int, k: int| 0 <= j < k < r@.len() ==> r@[j] != r@[k],
            forall|k: int|
                0 <= k < r@.len() ==> decider.keep_spec(#[trigger] r@[k]) && is_expansion_candidate(
                    self.db_view().docs,
                    rset@,
                    r@[k],
                ),
            r@.len() < maxitems ==> forall|t: Seq<u8>|
                #[trigger] is_expansion_candidate(self.db_view().docs, rset@, t)
                    && decider.keep_spec(t) ==> r@.contains(t),
    {
        let ghost docs = self.db_view().docs;
        let ghost ids = rset@;
        proof {
            use_type_invariant(self.db);
        }
        let n = self.db.docs_len();
        let mut out: Vec<Vec<u8>> = Vec::new();
        let mut i: usize = 0;
        while i < n
            invariant
                n == docs.len(),
                docs == self.db_view().docs,
                ids == rset@,
                db_wf(self.db@),
                0 <= i <= n,
                out@.len() <= maxitems,
                forall|j: int, k: int|
                    0 <= j < k < out@.len() ==> crate::query::bytes_seq_view(out@)[j]
                        != crate::query::bytes_seq_view(out@)[k],
                forall|k: int|
                    0 <= k < out@.len() ==> decider.keep_spec(
                        #[trigger] crate::query::bytes_seq_view(out@)[k],
                    ) && is_expansion_candidate(docs, ids, crate::query::bytes_seq_view(out@)[k]),
                out@.len() < maxitems ==> forall|a: int, b: int|
                    0 <= a < i && ids.contains((#[trigger] docs[a]).id) && 0 <= b
                        < docs[a].terms.len() && decider.keep_spec(
                        (#[trigger] docs[a].terms[b]).value,
                    ) ==> crate::query::bytes_seq_view(out@).contains(docs[a].terms[b].value),
            decreases n - i,
        {
            let d = self.db.doc_at(i);
            let relevant = rset.contains_id(DocId::from_nonzero(d.id_raw()));
            let ghost pre_out = out@;
            if relevant {
                self.collect_doc_terms(d, decider, maxitems, &mut out, Ghost(docs), Ghost(ids), Ghost(i as int));
            }
            proof {
                assert forall|a: int, b: int|
                    out@.len() < maxitems && 0 <= a < i + 1 && ids.contains(
                        (#[trigger] docs[a]).id,
                    ) && 0 <= b < docs[a].terms.len() && decider.keep_spec(
                        (#[trigger] docs[a].terms[b]).value,
                    ) implies crate::query::bytes_seq_view(out@).contains(
                    docs[a].terms[b].value,
                ) by {
                    if a < i {
                        assert(pre_out.len() <= out@.len());
                        assert(pre_out.len() < maxitems);
                        assert(crate::query::bytes_seq_view(pre_out).contains(
                            docs[a].terms[b].value,
                        ));
                    }
                }
            }
            i += 1;
        }
        proof {
            assert(crate::query::bytes_seq_view(out@).len() == out@.len());
        }
        ESet { terms: out }
    }

    /// Fold one relevant document's terms into the expansion collection.
    fn collect_doc_terms<D: ExpandDecider>(
        &self,
        d: &Document,
        decider: &D,
        maxitems: u32,
        out: &mut Vec<Vec<u8>>,
        Ghost(docs): Ghost<Seq<DocView>>,
        Ghost(ids): Ghost<Seq<u32>>,
        Ghost(i): Ghost<int>,
    )
        requires
            0 <= i < docs.len(),
            d@ == docs[i],
            ids.contains(docs[i].id),
            old(out)@.len() <= maxitems,
            forall|j: int, k: int|
                0 <= j < k < old(out)@.len() ==> crate::query::bytes_seq_view(old(out)@)[j]
                    != crate::query::bytes_seq_view(old(out)@)[k],
            forall|k: int|
                0 <= k < old(out)@.len() ==> decider.keep_spec(
                    #[trigger] crate::query::bytes_seq_view(old(out)@)[k],
                ) && is_expansion_candidate(docs, ids, crate::query::bytes_seq_view(old(out)@)[k]),
        ensures
            final(out)@.len() <= maxitems,
            forall|j: int, k: int|
                0 <= j < k < final(out)@.len() ==> crate::query::bytes_seq_view(final(out)@)[j]
                    != crate::query::bytes_seq_view(final(out)@)[k],
            forall|k: int|
                0 <= k < final(out)@.len() ==> decider.keep_spec(
                    #[trigger] crate::query::bytes_seq_view(final(out)@)[k],
                ) && is_expansion_candidate(
                    docs,
                    ids,
                    crate::query::bytes_seq_view(final(out)@)[k],
                ),
            old(out)@.len() <= final(out)@.len(),
            forall|t: Seq<u8>|
                crate::query::bytes_seq_view(old(out)@).contains(t) ==> crate::query::bytes_seq_view(
                    final(out)@,
                ).contains(t),
            final(out)@.len() < maxitems ==> forall|b: int|
                0 <= b < docs[i].terms.len() && decider.keep_spec(
                    (#[trigger] docs[i].terms[b]).value,
                ) ==> crate::query::bytes_seq_view(final(out)@).contains(docs[i].terms[b].value),
    {
        let mut cursor = d.terms();
        let ghost dterms = d@.terms;
        let total = cursor.len();
        let mut b: usize = 0;
        while b < total
            invariant
                cursor.wf(),
                crate::doc::terms_view(cursor.items_view()) == dterms,
                dterms == docs[i].terms,
                total == dterms.len(),
                cursor.rev_pos() == dterms.len(),
                cursor.fwd_pos() == b,
                0 <= b <= total,
                0 <= i < docs.len(),
                ids.contains(docs[i].id),
                old(out)@.len() <= out@.len(),
                out@.len() <= maxitems,
                forall|j: int, k: int|
                    0 <= j < k < out@.len() ==> crate::query::bytes_seq_view(out@)[j]
                        != crate::query::bytes_seq_view(out@)[k],
                forall|k: int|
                    0 <= k < out@.len() ==> decider.keep_spec(
                        #[trigger] crate::query::bytes_seq_view(out@)[k],
                    ) && is_expansion_candidate(docs, ids, crate::query::bytes_seq_view(out@)[k]),
                forall|t: Seq<u8>|
                    crate::query::bytes_seq_view(old(out)@).contains(t)
                        ==> crate::query::bytes_seq_view(out@).contains(t),
                out@.len() < maxitems ==> forall|bb: int|
                    0 <= bb < b && decider.keep_spec((#[trigger] dterms[bb]).value)
                        ==> crate::query::bytes_seq_view(out@).contains(dterms[bb].value),
            decreases total - b,
        {
            let next = cursor.next();
            let term = match next {
                Some(t) => t,
                None => {
                    proof {
                        assert(false);
                    }
                    return ;
                },
            };
            proof {
                assert(crate::doc::terms_view(cursor.items_view())[b as int] == term@);
                assert(term@ == dterms[b as int]);
            }
            let ghost pre = out@;
            if decider.should_keep(term.bytes().as_slice()) {
                if !crate::query::contains_bytes(out, term.bytes().as_slice()) {
                    if out.len() < maxitems as usize {
                        out.push(vstd::slice::slice_to_vec(term.bytes().as_slice()));
                        proof {
                            let v = crate::query::bytes_seq_view(out@);
                            let pv = crate::query::bytes_seq_view(pre);
                            assert(v.len() == pv.len() + 1);
                            assert(forall|k: int| 0 <= k < pv.len() ==> v[k] == pv[k]);
                            assert(v[pv.len() as int] == dterms[b as int].value);
                            assert(is_expansion_candidate(docs, ids, dterms[b as int].value));
                            assert forall|t: Seq<u8>| pv.contains(t) implies v.contains(t) by {
                                let k = choose|k: int| 0 <= k < pv.len() && pv[k] == t;
                                assert(v[k] == t);
                            }
                            assert(v.contains(dterms[b as int].value)) by {
                                assert(v[pv.len() as int] == dterms[b as int].value);
                            }
                        }
                    } else {
                        // the cap is reached: nothing more is collected
                        proof {
                            assert(out@.len() == maxitems);
                        }
                        return ;
                    }
                } else {
                    proof {
                        assert(crate::query::bytes_seq_view(out@).contains(dterms[b as int].value));
                    }
                }
            }
            b += 1;
            proof {
                if out@.len() < maxitems {
                    assert forall|bb: int|
                        0 <= bb < b && decider.keep_spec((#[trigger] dterms[bb]).value)
                            implies crate::query::bytes_seq_view(out@).contains(
                        dterms[bb].value,
                    ) by {
                        if bb < b - 1 {
                            assert(crate::query::bytes_seq_view(pre).contains(dterms[bb].value));
                        }
                    }
                }
            }
        }
    }

    /// Collect the full result list: every stored document the query and
    /// the filter accept, in ascending identifier order.
    fn collect_matches<D: MatchDecider>(&self, decider: &D) -> (r: Vec<Match>)
        ensures
            matches_view(r@) == match_list(
                filter_docs(self.db_view().docs, match_pred_with(self.query_view(), *decider)),
            ),
            r@.len() <= self.db_view().docs.len(),
    {
        let ghost q = self.query_view();
        let ghost docs = self.db_view().docs;
        let ghost pred = match_pred_with(q, *decider);
        proof {
            use_type_invariant(self.db);
        }
        let n = self.db.docs_len();
        let mut full: Vec<Match> = Vec::new();
        let mut i: usize = 0;
        while i < n
            invariant
                n == docs.len(),
                docs == self.db_view().docs,
                q == self.query_view(),
                pred == match_pred_with(q, *decider),
                db_wf(self.db@),
                0 <= i <= n,
                matches_view(full@) == match_list(filter_docs(docs.take(i as int), pred)),
                full@.len() == filter_docs(docs.take(i as int), pred).len(),
            decreases n - i,
        {
            let d = self.db.doc_at(i);
            proof {
                lemma_filter_docs_take_step(docs, pred, i as int);
                lemma_filter_docs_len(docs.take(i as int), pred);
                assert(docs.take(i as int).len() == i as int);
                lemma_docs_len_bound(docs);
            }
            if self.query.matches(d) && decider.is_match(d) {
                let ghost kept_pre = filter_docs(docs.take(i as int), pred);
                let rank = full.len();
                let m = Match {
                    docid: DocId::from_nonzero(d.id_raw()),
                    rank: rank as u32,
                    weight: Weight { bits: UNIT_WEIGHT_BITS },
                    doc: d.snapshot(),
                };
                let ghost pre = full@;
                full.push(m);
                proof {
                    let kept = filter_docs(docs.take(i as int + 1), pred);
                    assert(kept == kept_pre.push(d@));
                    assert(kept.drop_last() =~= kept_pre);
                    assert(kept.last() == d@);
                    assert(m@ == match_of(d@, rank as int));
                    assert forall|k: int| 0 <= k < kept.len() implies matches_view(full@)[k]
                        == match_list(kept)[k] by {
                        if k < rank as int {
                            assert(full@[k] == pre[k]);
                            assert(matches_view(pre)[k] == match_list(kept_pre)[k]);
                            assert(kept[k] == kept_pre[k]);
                        } else {
                            assert(full@[k] == m);
                        }
                    }
                    assert(matches_view(full@) =~= match_list(kept));
                }
            } else {
                proof {
                    assert(filter_docs(docs.take(i as int + 1), pred) == filter_docs(
                        docs.take(i as int),
                        pred,
                    ));
                }
            }
            i += 1;
        }
        proof {
            assert(docs.take(n as int) =~= docs);
            lemma_filter_docs_len(docs, pred);
        }
        full
    }
}

/// The page `[first, first + maxitems)` of the full result list, clipped
/// to what exists.
fn window_of(full: Vec<Match>, first: u32, maxitems: u32, Ghost(all): Ghost<Seq<DocView>>) -> (r:
    MSet)
    requires
        match_list(all) == matches_view(full@),
        all.len() == full@.len(),
    ensures
        r@ == mset_window(all, first as int, maxitems as int),
{
    let len = full.len();
    let lo: usize = if (first as usize) < len {
        first as usize
    } else {
        len
    };
    let take: usize = if (maxitems as usize) < len - lo {
        maxitems as usize
    } else {
        len - lo
    };
    let mut out: Vec<Match> = Vec::new();
    let mut j: usize = 0;
    while j < take
        invariant
            0 <= j <= take,
            lo + take <= len,
            len == full@.len(),
            matches_view(out@) == matches_view(full@).subrange(lo as int, lo as int + j as int),
        decreases take - j,
    {
        let ghost pre = out@;
        let m = full[lo + j].duplicate();
        proof {
            assert(matches_view(pre) == matches_view(full@).subrange(
                lo as int,
                lo as int + j as int,
            ));
            assert(matches_view(pre).len() == pre.len());
            assert(matches_view(full@).subrange(lo as int, lo as int + j as int).len()
                == j as int);
            assert(pre.len() == j as int);
        }
        out.push(m);
        proof {
            assert(pre.len() == j as int);
            assert(out@ == pre.push(m));
            assert forall|k: int| 0 <= k < j + 1 implies matches_view(out@)[k] == matches_view(
                full@,
            ).subrange(lo as int, lo as int + j as int + 1)[k] by {
                if k < j as int {
                    assert(out@[k] == pre[k]);
                    assert(matches_view(pre)[k] == matches_view(full@).subrange(
                        lo as int,
                        lo as int + j as int,
                    )[k]);
                } else {
                    assert(out@[k] == m);
                }
            }
            assert(matches_view(out@) =~= matches_view(full@).subrange(
                lo as int,
                lo as int + j as int + 1,
            ));
        }
        j += 1;
    }
    proof {
        let lo_s = if (first as int) < all.len() {
            first as int
        } else {
            all.len() as int
        };
        let hi_s = if (first as int) + (maxitems as int) < all.len() {
            (first as int) + (maxitems as int)
        } else {
            all.len() as int
        };
        assert(lo as int == lo_s);
        assert(lo as int + take as int == hi_s);
        assert(matches_view(out@) == match_list(all).subrange(lo_s, hi_s));
        assert(out@.len() == take as int);
        assert(take as int <= maxitems as int);
    }
    MSet { items: out }
}


/// Whether `t` is an expansion candidate: a term carried by some stored
/// document marked relevant.
pub open spec fn is_expansion_candidate(docs: Seq<DocView>, ids: Seq<u32>, t: Seq<u8>) -> bool {
    exists|a: int, b: int|
        0 <= a < docs.len() && ids.contains((#[trigger] docs[a]).id) && 0 <= b < docs[a].terms.len()
            && (#[trigger] docs[a].terms[b]).value == t
}

/// A set of terms suggested for expanding the current query.
pub struct ESet {
    terms: Vec<Vec<u8>>,
}

impl View for ESet {
    type V = Seq<Seq<u8>>;

    closed spec fn view(&self) -> Seq<Seq<u8>> {
        crate::query::bytes_seq_view(self.terms@)
    }
}

impl ESet {
    /// Expansion sets are capped by the search that builds them.
    #[verifier::type_invariant]
    pub open spec fn inv(self) -> bool {
        self@.len() <= 0xffff_ffff
    }

    /// The number of suggested terms.
    pub fn size(&self) -> (r: u32)
        ensures
            r == self@.len(),
    {
        proof {
            use_type_invariant(self);
        }
        self.terms.len() as u32
    }

    /// Whether no term is suggested.
    pub fn empty(&self) -> (r: bool)
        ensures
            r == (self@.len() == 0),
    {
        self.terms.len() == 0
    }

    /// A cursor pair over the suggested terms.
    pub fn terms(&self) -> (r: SeqCursor<'_, Vec<u8>>)
        ensures
            r.wf(),
            crate::query::bytes_seq_view(r.items_view()) == self@,
            r.fwd_pos() == 0,
            r.rev_pos() == self@.len(),
    {
        SeqCursor::new(&self.terms)
    }
}

/// A match filter that rejects documents whose given slot holds a given
/// sentinel value.
pub struct ValueRejectDecider {
    slot: u32,
    sentinel: Vec<u8>,
}

impl ValueRejectDecider {
    /// A filter rejecting documents whose `slot` holds exactly
    /// `sentinel`.
    pub fn new(slot: crate::Slot, sentinel: &[u8]) -> (r: ValueRejectDecider)
        ensures
            r.slot_spec() == slot.raw,
            r.sentinel_spec() == sentinel@,
    {
        ValueRejectDecider { slot: slot.raw, sentinel: vstd::slice::slice_to_vec(sentinel) }
    }

    /// The watched slot.
    pub closed spec fn slot_spec(&self) -> u32 {
        self.slot
    }

    /// The rejected value.
    pub closed spec fn sentinel_spec(&self) -> Seq<u8> {
        self.sentinel@
    }
}

impl MatchDecider for ValueRejectDecider {
    /// Keep the document unless its watched slot presents the sentinel.
    open spec fn decide_spec(&self, doc: DocView) -> bool {
        crate::query::slot_bytes(doc, self.slot_spec()) != Some(self.sentinel_spec())
    }

    fn is_match(&self, doc: &Document) -> (r: bool)
        ensures
            r == self.decide_spec(doc@),
    {
        match doc.value(crate::Slot::new(self.slot)) {
            Some(v) => !crate::value::bytes_eq(v.as_slice(), self.sentinel.as_slice()),
            None => true,
        }
    }
}

/// Whether some count entry is for value `v`.
pub open spec fn has_count_key(c: Seq<(Seq<u8>, u32)>, v: Seq<u8>) -> bool {
    exists|j: int| 0 <= j < c.len() && c[j].0 == v
}

/// The index of the count entry for `v`.
pub open spec fn count_key_index(c: Seq<(Seq<u8>, u32)>, v: Seq<u8>) -> int {
    choose|j: int| 0 <= j < c.len() && c[j].0 == v
}

/// The count recorded for `v` (0 when none is).
pub open spec fn count_in(c: Seq<(Seq<u8>, u32)>, v: Seq<u8>) -> u32 {
    if has_count_key(c, v) {
        c[count_key_index(c, v)].1
    } else {
        0
    }
}

/// No two count entries are for the same value.
pub open spec fn count_keys_unique(c: Seq<(Seq<u8>, u32)>) -> bool {
    forall|j: int, k: int| 0 <= j < k < c.len() ==> c[j].0 != c[k].0
}

/// The counts after seeing value `v` once more.
pub open spec fn counts_bumped(c: Seq<(Seq<u8>, u32)>, v: Seq<u8>) -> Seq<(Seq<u8>, u32)> {
    if has_count_key(c, v) {
        c.update(count_key_index(c, v), (v, crate::doc::sat_add(c[count_key_index(c, v)].1, 1)))
    } else {
        c.push((v, 1))
    }
}

/// A match observer that counts how often each distinct value appears in a
/// given slot across the accepted documents.
pub struct ValueCountMatchSpy {
    slot: u32,
    counts: Vec<(Vec<u8>, u32)>,
}

/// The views of a sequence of count entries, element-wise.
pub open spec fn counts_view(c: Seq<(Vec<u8>, u32)>) -> Seq<(Seq<u8>, u32)> {
    Seq::new(c.len(), |k: int| (c[k].0@, c[k].1))
}

impl ValueCountMatchSpy {
    /// The per-value counts are unique by value.
    #[verifier::type_invariant]
    spec fn inv(self) -> bool {
        count_keys_unique(counts_view(self.counts@))
    }

    /// A fresh observer counting the values of `slot`.
    pub fn new(slot: crate::Slot) -> (r: ValueCountMatchSpy)
        ensures
            r.state() == (slot.raw, Seq::<(Seq<u8>, u32)>::empty()),
    {
        let r = ValueCountMatchSpy { slot: slot.raw, counts: Vec::new() };
        proof {
            assert(counts_view(r.counts@) =~= Seq::<(Seq<u8>, u32)>::empty());
        }
        r
    }

    /// How often the observer has seen `value` in the watched slot.
    pub fn count_of(&self, value: &[u8]) -> (r: u32)
        ensures
            r == count_in(self.state().1, value@),
    {
        proof {
            use_type_invariant(self);
        }
        let n = self.counts.len();
        let mut i: usize = 0;
        while i < n
            invariant
                n == self.counts@.len(),
                0 <= i <= n,
                forall|j: int| 0 <= j < i ==> counts_view(self.counts@)[j].0 != value@,
                count_keys_unique(counts_view(self.counts@)),
            decreases n - i,
        {
            if crate::value::bytes_eq(self.counts[i].0.as_slice(), value) {
                proof {
                    lemma_unique_count_index(counts_view(self.counts@), value@, i as int);
                }
                return self.counts[i].1;
            }
            i += 1;
        }
        proof {
            if has_count_key(counts_view(self.counts@), value@) {
                let j = count_key_index(counts_view(self.counts@), value@);
                assert(counts_view(self.counts@)[j].0 == value@);
            }
        }
        0
    }

    /// How many distinct values the observer has seen.
    pub fn distinct_values(&self) -> (r: usize)
        ensures
            r == self.state().1.len(),
    {
        self.counts.len()
    }
}

impl MatchSpy for ValueCountMatchSpy {
    type State = (u32, Seq<(Seq<u8>, u32)>);

    /// The watched slot and the per-value counts.
    closed spec fn state(&self) -> (u32, Seq<(Seq<u8>, u32)>) {
        (self.slot, counts_view(self.counts@))
    }

    /// Seeing a document bumps the count of the value its watched slot
    /// presents; a document presenting nothing leaves the counts alone.
    open spec fn observed_spec(s: (u32, Seq<(Seq<u8>, u32)>), doc: DocView, weight: Weight) -> (
        u32,
        Seq<(Seq<u8>, u32)>,
    ) {
        match crate::query::slot_bytes(doc, s.0) {
            Some(v) => (s.0, counts_bumped(s.1, v)),
            None => s,
        }
    }

    fn observe(&mut self, doc: &Document, weight: Weight)
        ensures
            final(self).state() == Self::observed_spec(old(self).state(), doc@, weight),
    {
        proof {
            use_type_invariant(&*self);
        }
        let v = match doc.value(crate::Slot::new(self.slot)) {
            Some(v) => v,
            None => {
                return ;
            },
        };
        let ghost old_counts = counts_view(self.counts@);
        let found = find_count_idx(&self.counts, v.as_slice());
        let mut counts: Vec<(Vec<u8>, u32)> = Vec::new();
        core::mem::swap(&mut self.counts, &mut counts);
        match found {
            Some(i) => {
                proof {
                    lemma_unique_count_index(old_counts, v@, i as int);
                }
                let bumped = crate::doc::sat_add_exec(counts[i].1, 1);
                let entry = (vstd::slice::slice_to_vec(v.as_slice()), bumped);
                counts[i] = entry;
                proof {
                    let new_counts = counts_view(counts@);
                    assert(new_counts =~= old_counts.update(
                        i as int,
                        (v@, crate::doc::sat_add(old_counts[i as int].1, 1)),
                    ));
                    assert(new_counts =~= counts_bumped(old_counts, v@));
                    lemma_counts_update_unique(old_counts, new_counts, i as int);
                }
            },
            None => {
                counts.push((vstd::slice::slice_to_vec(v.as_slice()), 1));
                proof {
                    let new_counts = counts_view(counts@);
                    assert(new_counts =~= old_counts.push((v@, 1)));
                    assert(new_counts =~= counts_bumped(old_counts, v@));
                    assert(forall|j: int|
                        0 <= j < old_counts.len() ==> new_counts[j] == old_counts[j]);
                    assert forall|j: int, k: int|
                        0 <= j < k < new_counts.len() implies new_counts[j].0
                        != new_counts[k].0 by {
                        if k < old_counts.len() {
                            assert(new_counts[j] == old_counts[j] && new_counts[k]
                                == old_counts[k]);
                        } else {
                            assert(new_counts[k].0 == v@);
                            assert(new_counts[j] == old_counts[j]);
                            assert(!has_count_key(old_counts, v@));
                        }
                    }
                }
            },
        }
        self.counts = counts;
    }

    /// This observer goes unnamed.
    closed spec fn name_spec(&self) -> Option<Seq<char>> {
        None
    }

    fn name(&self) -> (r: Option<String>)
        ensures
            match r {
                Some(s) => self.name_spec() == Some(s@),
                None => self.name_spec() is None,
            },
    {
        None
    }
}

/// The index of the count entry holding `v`, if any.
fn find_count_idx(c: &Vec<(Vec<u8>, u32)>, v: &[u8]) -> (r: Option<usize>)
    ensures
        r matches Some(i) ==> 0 <= i < c@.len() && counts_view(c@)[i as int].0 == v@,
        r is None ==> !has_count_key(counts_view(c@), v@),
{
    let n = c.len();
    let mut i: usize = 0;
    while i < n
        invariant
            n == c@.len(),
            0 <= i <= n,
            forall|j: int| 0 <= j < i ==> counts_view(c@)[j].0 != v@,
        decreases n - i,
    {
        if crate::value::bytes_eq(c[i].0.as_slice(), v) {
            proof {
                assert(counts_view(c@)[i as int].0 == v@);
            }
            return Some(i);
        }
        i += 1;
    }
    proof {
        if has_count_key(counts_view(c@), v@) {
            let j = count_key_index(counts_view(c@), v@);
            assert(counts_view(c@)[j].0 == v@);
        }
    }
    None
}

/// With unique values, the found index is the `choose`-picked one.
proof fn lemma_unique_count_index(c: Seq<(Seq<u8>, u32)>, v: Seq<u8>, i: int)
    requires
        count_keys_unique(c),
        0 <= i < c.len(),
        c[i].0 == v,
    ensures
        has_count_key(c, v),
        count_key_index(c, v) == i,
{
    assert(has_count_key(c, v));
    let j = count_key_index(c, v);
    assert(0 <= j < c.len() && c[j].0 == v);
    if i != j {
        assert(false);
    }
}

/// Updating one count entry in place (same value) keeps values unique.
proof fn lemma_counts_update_unique(
    old_c: Seq<(Seq<u8>, u32)>,
    new_c: Seq<(Seq<u8>, u32)>,
    i: int,
)
    requires
        count_keys_unique(old_c),
        0 <= i < old_c.len(),
        new_c == old_c.update(i, new_c[i]),
        new_c.len() == old_c.len(),
        new_c[i].0 == old_c[i].0,
    ensures
        count_keys_unique(new_c),
{
    assert(forall|j: int| 0 <= j < new_c.len() ==> new_c[j].0 == old_c[j].0);
}

} // verus!
