//! The callback bridge: letting user-supplied logic take part in the
//! engine's own dispatch.
//!
//! Each of the five capability roles (expansion filter, field processor,
//! match filter, match observer, stopword filter) is a trait whose exec
//! method carries the role's contract. A peer (`Rust…`) wraps one
//! implementation and presents the engine-facing entry point: the
//! trampoline, which marshals the engine-side arguments (strings are
//! copied; a document, valid only for the duration of the call, is copied
//! by snapshot), invokes the managed implementation synchronously — one
//! call in, one call out, no suspension — and marshals the result back.
//! A verified trampoline cannot panic, so no failure can cross back into
//! the engine.
//!
//! A peer used inside one result-producing call lives on the caller's
//! stack for that call (the transient regime). A peer the engine would
//! retain beyond a call is given a stable home in a [`Registry`]: a
//! generation-checked handle table with an explicit unregister operation,
//! so a stale handle can never reach a reclaimed peer.

use vstd::prelude::*;
use vstd::slice::slice_to_vec;

use crate::db::docs_view;
use crate::doc::{DocView, Document};
use crate::query::{QView, Query};
use crate::search::{ExpandDecider, MatchDecider, MatchSpy, Weight};

verus! {

/// A field processor: turns the text of one query field into a subquery,
/// or declines.
pub trait FieldProcessor {
    /// What the processor produces for a field text.
    spec fn process_spec(&self, field: Seq<u8>) -> Option<QView>;

    /// Produce a subquery for the field text, or decline.
    fn process(&self, field: &[u8]) -> (r: Option<Query>)
        ensures
            match r {
                Some(q) => self.process_spec(field@) == Some(q@),
                None => self.process_spec(field@) is None,
            },
    ;
}

/// A stopword filter: decides which words are too common to index or
/// query.
pub trait Stopper {
    /// What the filter decides of a word.
    spec fn stop_spec(&self, word: Seq<u8>) -> bool;

    /// Decide whether the word is a stopword.
    fn is_stopword(&self, word: &[u8]) -> (r: bool)
        ensures
            r == self.stop_spec(word@),
    ;
}

/// The peer presenting a managed [`MatchDecider`] to the engine.
pub struct RustMatchDecider<D: MatchDecider> {
    inner: D,
}

impl<D: MatchDecider> RustMatchDecider<D> {
    /// The wrapped implementation.
    pub closed spec fn inner_view(&self) -> D {
        self.inner
    }

    /// Wrap a match filter as an engine-facing peer.
    pub fn from_trait(decider: D) -> (r: RustMatchDecider<D>)
        ensures
            r.inner_view() == decider,
    {
        RustMatchDecider { inner: decider }
    }
}

impl<D: MatchDecider> MatchDecider for RustMatchDecider<D> {
    /// The peer decides exactly as its wrapped implementation does.
    open spec fn decide_spec(&self, doc: DocView) -> bool {
        self.inner_view().decide_spec(doc)
    }

    /// The trampoline: copy the engine-side document (it is only valid
    /// for this call), invoke the managed filter, hand its verdict back.
    fn is_match(&self, doc: &Document) -> (r: bool)
        ensures
            r == self.decide_spec(doc@),
    {
        let snapshot = doc.snapshot();
        self.inner.is_match(&snapshot)
    }
}

/// The peer presenting a managed [`MatchSpy`] to the engine.
pub struct RustMatchSpy<S: MatchSpy> {
    inner: S,
}

impl<S: MatchSpy> RustMatchSpy<S> {
    /// The wrapped implementation.
    pub closed spec fn inner_view(&self) -> S {
        self.inner
    }

    /// Wrap a match observer as an engine-facing peer.
    pub fn from_trait(spy: S) -> (r: RustMatchSpy<S>)
        ensures
            r.state() == spy.state(),
    {
        RustMatchSpy { inner: spy }
    }

    /// Take the wrapped observer back, with everything it accumulated.
    pub fn into_inner(self) -> (r: S)
        ensures
            r.state() == self.state(),
    {
        self.inner
    }
}

impl<S: MatchSpy> MatchSpy for RustMatchSpy<S> {
    type State = S::State;

    /// The peer accumulates exactly what its wrapped observer does.
    closed spec fn state(&self) -> S::State {
        self.inner.state()
    }

    open spec fn observed_spec(s: S::State, doc: DocView, weight: Weight) -> S::State {
        S::observed_spec(s, doc, weight)
    }

    /// The wrapped observer's name; an unnamed observer is reported under
    /// a fixed fallback, since the engine's diagnostics expect every
    /// registered observer to answer to something.
    open spec fn name_spec(&self) -> Option<Seq<char>> {
        match self.inner_view().name_spec() {
            Some(n) => Some(n),
            None => Some("matchspy"@),
        }
    }

    /// The trampoline: copy the engine-side document, let the managed
    /// observer see it, return.
    fn observe(&mut self, doc: &Document, weight: Weight)
        ensures
            final(self).state() == Self::observed_spec(old(self).state(), doc@, weight),
    {
        let snapshot = doc.snapshot();
        self.inner.observe(&snapshot, weight);
    }

    fn name(&self) -> (r: Option<String>)
        ensures
            match r {
                Some(s) => self.name_spec() == Some(s@),
                None => self.name_spec() is None,
            },
    {
        match self.inner.name() {
            Some(s) => Some(s),
            None => Some("matchspy".to_owned()),
        }
    }
}

/// The peer presenting a managed [`ExpandDecider`] to the engine.
pub struct RustExpandDecider<D: ExpandDecider> {
    inner: D,
}

impl<D: ExpandDecider> RustExpandDecider<D> {
    /// The wrapped implementation.
    pub closed spec fn inner_view(&self) -> D {
        self.inner
    }

    /// Wrap an expansion filter as an engine-facing peer.
    pub fn from_trait(decider: D) -> (r: RustExpandDecider<D>)
        ensures
            r.inner_view() == decider,
    {
        RustExpandDecider { inner: decider }
    }
}

impl<D: ExpandDecider> ExpandDecider for RustExpandDecider<D> {
    /// The peer decides exactly as its wrapped implementation does.
    open spec fn keep_spec(&self, term: Seq<u8>) -> bool {
        self.inner_view().keep_spec(term)
    }

    /// The trampoline: copy the engine-side term bytes, invoke the
    /// managed filter, hand its verdict back.
    fn should_keep(&self, term: &[u8]) -> (r: bool)
        ensures
            r == self.keep_spec(term@),
    {
        let copy = slice_to_vec(term);
        self.inner.should_keep(copy.as_slice())
    }
}

/// The peer presenting a managed [`Stopper`] to the engine.
pub struct RustStopper<S: Stopper> {
    inner: S,
}

impl<S: Stopper> RustStopper<S> {
    /// The wrapped implementation.
    pub closed spec fn inner_view(&self) -> S {
        self.inner
    }

    /// Wrap a stopword filter as an engine-facing peer.
    pub fn from_trait(stopper: S) -> (r: RustStopper<S>)
        ensures
            r.inner_view() == stopper,
    {
        RustStopper { inner: stopper }
    }
}

impl<S: Stopper> Stopper for RustStopper<S> {
    /// The peer decides exactly as its wrapped implementation does.
    open spec fn stop_spec(&self, word: Seq<u8>) -> bool {
        self.inner_view().stop_spec(word)
    }

    /// The trampoline: copy the engine-side word bytes, invoke the
    /// managed filter, hand its verdict back.
    fn is_stopword(&self, word: &[u8]) -> (r: bool)
        ensures
            r == self.stop_spec(word@),
    {
        let copy = slice_to_vec(word);
        self.inner.is_stopword(copy.as_slice())
    }
}

/// The peer presenting a managed [`FieldProcessor`] to the engine.
pub struct RustFieldProcessor<F: FieldProcessor> {
    inner: F,
}

impl<F: FieldProcessor> RustFieldProcessor<F> {
    /// The wrapped implementation.
    pub closed spec fn inner_view(&self) -> F {
        self.inner
    }

    /// Wrap a field processor as an engine-facing peer.
    pub fn from_trait(proc: F) -> (r: RustFieldProcessor<F>)
        ensures
            r.inner_view() == proc,
    {
        RustFieldProcessor { inner: proc }
    }

    /// The trampoline: copy the engine-side field text, invoke the
    /// managed processor, and hand the engine a query either way — the
    /// engine's call signature cannot express absence, so a processor
    /// that declines is reported as the invalid-query sentinel.
    pub fn process(&self, field: &[u8]) -> (r: Query)
        ensures
            match self.inner_view().process_spec(field@) {
                Some(qv) => r@ == qv,
                None => r@ == QView::Invalid,
            },
    {
        let copy = slice_to_vec(field);
        match self.inner.process(copy.as_slice()) {
            Some(q) => q,
            None => Query::invalid(),
        }
    }
}

/// The verdicts a match filter gives a candidate list, in candidate
/// order.
pub open spec fn decision_seq<D: MatchDecider>(d: D, docs: Seq<DocView>) -> Seq<bool> {
    Seq::new(docs.len(), |k: int| d.decide_spec(docs[k]))
}

/// The verdict sequence the engine obtains by calling the peer's
/// trampoline on each candidate, in order.
pub fn decisions_via_bridge<D: MatchDecider>(
    peer: &RustMatchDecider<D>,
    docs: &Vec<Document>,
) -> (r: Vec<bool>)
    ensures
        r@ == decision_seq(peer.inner_view(), docs_view(docs@)),
{
    let n = docs.len();
    let mut r: Vec<bool> = Vec::new();
    let mut i: usize = 0;
    while i < n
        invariant
            n == docs@.len(),
            0 <= i <= n,
            r@ == decision_seq(peer.inner_view(), docs_view(docs@)).take(i as int),
        decreases n - i,
    {
        let v = peer.is_match(&docs[i]);
        r.push(v);
        proof {
            assert(r@ =~= decision_seq(peer.inner_view(), docs_view(docs@)).take(i as int + 1));
        }
        i += 1;
    }
    proof {
        assert(decision_seq(peer.inner_view(), docs_view(docs@)).take(n as int) =~= decision_seq(
            peer.inner_view(),
            docs_view(docs@),
        ));
    }
    r
}

/// The verdict sequence obtained by calling the filter directly on each
/// candidate, in order.
pub fn decisions_direct<D: MatchDecider>(decider: &D, docs: &Vec<Document>) -> (r: Vec<bool>)
    ensures
        r@ == decision_seq(*decider, docs_view(docs@)),
{
    let n = docs.len();
    let mut r: Vec<bool> = Vec::new();
    let mut i: usize = 0;
    while i < n
        invariant
            n == docs@.len(),
            0 <= i <= n,
            r@ == decision_seq(*decider, docs_view(docs@)).take(i as int),
        decreases n - i,
    {
        let v = decider.is_match(&docs[i]);
        r.push(v);
        proof {
            assert(r@ =~= decision_seq(*decider, docs_view(docs@)).take(i as int + 1));
        }
        i += 1;
    }
    proof {
        assert(decision_seq(*decider, docs_view(docs@)).take(n as int) =~= decision_seq(
            *decider,
            docs_view(docs@),
        ));
    }
    r
}

/// Callback fidelity law: for a fixed filter and a fixed candidate list,
/// the verdict sequence the engine obtains through the bridge (what
/// [`decisions_via_bridge`] ensures of its result) equals the sequence
/// obtained by calling the filter directly (what [`decisions_direct`]
/// ensures), in the same order.
pub proof fn lemma_callback_fidelity<D: MatchDecider>(
    d: D,
    docs: Seq<DocView>,
    via_bridge: Seq<bool>,
    direct: Seq<bool>,
)
    requires
        via_bridge == decision_seq(d, docs),
        direct == decision_seq(d, docs),
    ensures
        via_bridge == direct,
{
}

/// A handle to one registered peer: its slot and the generation the slot
/// had when the peer moved in.
#[derive(Debug, Clone, Copy, PartialEq, Eq, Structural)]
pub struct Registration {
    /// The slot index.
    pub index: usize,
    /// The slot generation this handle belongs to.
    pub generation: u64,
}

/// A registry giving long-lived peers a stable home.
///
/// Where the engine retains a peer pointer beyond a single call, the peer
/// must outlive that call without a tracked lifetime. The registry holds
/// such peers in slots addressed by generation-checked handles: giving a
/// registration up reclaims the peer and steps the slot's generation, so a
/// stale handle (or any copy of it) goes dead and can never reach the
/// slot again.
pub struct Registry<T> {
    slots: Vec<(u64, Option<T>)>,
}

impl<T> Registry<T> {
    /// The slot states: each slot's generation and current occupant.
    pub closed spec fn entries(&self) -> Seq<(u64, Option<T>)> {
        self.slots@
    }

    /// Whether a handle is live: its slot exists, holds a peer, and still
    /// has the handle's generation.
    pub open spec fn live(&self, h: Registration) -> bool {
        &&& h.index < self.entries().len()
        &&& self.entries()[h.index as int].0 == h.generation
        &&& self.entries()[h.index as int].1 is Some
    }

    /// A fresh, empty registry.
    pub fn new() -> (r: Registry<T>)
        ensures
            r.entries() == Seq::<(u64, Option<T>)>::empty(),
    {
        let r = Registry { slots: Vec::new() };
        proof {
            assert(r.entries() =~= Seq::<(u64, Option<T>)>::empty());
        }
        r
    }

    /// Move a peer in, giving it a fresh slot, and hand back the handle
    /// that reaches it.
    pub fn register(&mut self, peer: T) -> (h: Registration)
        ensures
            final(self).live(h),
            h.index == old(self).entries().len(),
            final(self).entries() == old(self).entries().push((h.generation, Some(peer))),
            forall|g: Registration|
                g.index != h.index ==> final(self).live(g) == old(self).live(g) && (g.index
                    < old(self).entries().len() ==> final(self).entries()[g.index as int]
                    == old(self).entries()[g.index as int]),
    {
        let h = Registration { index: self.slots.len(), generation: 0 };
        self.slots.push((0, Some(peer)));
        h
    }

    /// The registered peer a handle reaches: the occupant of the handle's
    /// slot while the handle is live, and nothing once the registration
    /// was given up.
    pub fn get(&self, h: Registration) -> (r: Option<&T>)
        ensures
            match r {
                Some(p) => self.live(h) && Some(*p) == self.entries()[h.index as int].1,
                None => !self.live(h),
            },
    {
        if h.index >= self.slots.len() {
            return None;
        }
        if self.slots[h.index].0 != h.generation {
            return None;
        }
        match &self.slots[h.index].1 {
            Some(p) => Some(p),
            None => None,
        }
    }

    /// Give a registration up: take the peer back out and step the slot's
    /// generation, so the handle (and any copy of it) goes dead.
    pub fn unregister(&mut self, h: Registration) -> (r: Option<T>)
        ensures
            !final(self).live(h),
            old(self).live(h) ==> r == old(self).entries()[h.index as int].1
                && final(self).entries()[h.index as int].1 is None,
            !old(self).live(h) ==> r is None && final(self).entries() == old(self).entries(),
            final(self).entries().len() == old(self).entries().len(),
            forall|g: Registration|
                g.index != h.index ==> final(self).live(g) == old(self).live(g) && (g.index
                    < old(self).entries().len() ==> final(self).entries()[g.index as int]
                    == old(self).entries()[g.index as int]),
    {
        if h.index >= self.slots.len() {
            return None;
        }
        let gen = self.slots[h.index].0;
        if gen != h.generation {
            return None;
        }
        let occupied = self.slots[h.index].1.is_some();
        if !occupied {
            return None;
        }
        let next_gen: u64 = if gen == 0xffff_ffff_ffff_ffffu64 {
            0xffff_ffff_ffff_ffffu64
        } else {
            gen + 1
        };
        let mut slots: Vec<(u64, Option<T>)> = Vec::new();
        core::mem::swap(&mut self.slots, &mut slots);
        let mut taken: (u64, Option<T>) = (next_gen, None);
        let cell = &mut slots[h.index];
        core::mem::swap(cell, &mut taken);
        self.slots = slots;
        proof {
            assert(self.entries()[h.index as int].1 is None);
        }
        taken.1
    }
}

/// A stopword filter backed by an explicit word list.
pub struct WordListStopper {
    words: Vec<Vec<u8>>,
}

impl WordListStopper {
    /// A filter treating exactly the given words as stopwords.
    pub fn new(words: Vec<Vec<u8>>) -> (r: WordListStopper)
        ensures
            r.words_view() == crate::query::bytes_seq_view(words@),
    {
        WordListStopper { words }
    }

    /// The stopword list.
    pub closed spec fn words_view(&self) -> Seq<Seq<u8>> {
        crate::query::bytes_seq_view(self.words@)
    }
}

impl Stopper for WordListStopper {
    /// A word is a stopword exactly when it is on the list.
    open spec fn stop_spec(&self, word: Seq<u8>) -> bool {
        self.words_view().contains(word)
    }

    fn is_stopword(&self, word: &[u8]) -> (r: bool)
        ensures
            r == self.stop_spec(word@),
    {
        crate::query::contains_bytes(&self.words, word)
    }
}

/// An expansion filter keeping only terms that start with a fixed prefix.
pub struct PrefixExpandDecider {
    prefix: Vec<u8>,
}

impl PrefixExpandDecider {
    /// A filter keeping exactly the terms starting with `prefix`.
    pub fn new(prefix: &[u8]) -> (r: PrefixExpandDecider)
        ensures
            r.prefix_view() == prefix@,
    {
        PrefixExpandDecider { prefix: slice_to_vec(prefix) }
    }

    /// The required prefix.
    pub closed spec fn prefix_view(&self) -> Seq<u8> {
        self.prefix@
    }
}

impl ExpandDecider for PrefixExpandDecider {
    /// A term is kept exactly when the prefix starts it.
    open spec fn keep_spec(&self, term: Seq<u8>) -> bool {
        crate::value::is_prefix_of(self.prefix_view(), term)
    }

    fn should_keep(&self, term: &[u8]) -> (r: bool)
        ensures
            r == self.keep_spec(term@),
    {
        crate::value::bytes_starts_with(term, self.prefix.as_slice())
    }
}

/// A field processor that turns non-empty field text into a term query and
/// declines empty text.
pub struct TermFieldProcessor;

impl FieldProcessor for TermFieldProcessor {
    /// Non-empty text becomes a term query for exactly that text; empty
    /// text is declined.
    open spec fn process_spec(&self, field: Seq<u8>) -> Option<QView> {
        if field.len() > 0 {
            Some(QView::Term { term: field, wqf: 1, pos: 0 })
        } else {
            None
        }
    }

    fn process(&self, field: &[u8]) -> (r: Option<Query>)
        ensures
            match r {
                Some(q) => self.process_spec(field@) == Some(q@),
                None => self.process_spec(field@) is None,
            },
    {
        if field.len() > 0 {
            Some(Query::term(field, None, None))
        } else {
            None
        }
    }
}

} // verus!
