//! Documents: the unit of storage and retrieval.
//!
//! A document carries an opaque data blob, a list of indexed terms (each
//! with a within-document frequency and optional positions), and a small
//! map of value slots holding sortable byte strings produced by the value
//! codec. Terms and value slots are unique per document; both invariants
//! are maintained by every mutator.

use vstd::prelude::*;
use vstd::slice::slice_to_vec;

use crate::cursor::SeqCursor;
use crate::value::{bytes_eq, bytes_starts_with, is_prefix_of};
use crate::{DocId, Position, Slot};

verus! {

/// The mathematical content of one term entry.
pub struct TermView {
    /// The term itself, as raw bytes.
    pub value: Seq<u8>,
    /// The within-document frequency.
    pub wdf: u32,
    /// The recorded positions of the term's occurrences.
    pub positions: Seq<Position>,
}

/// One indexed term of a document, with its within-document frequency and
/// its recorded positions.
pub struct Term {
    value: Vec<u8>,
    wdf: u32,
    positions: Vec<Position>,
}

impl View for Term {
    type V = TermView;

    closed spec fn view(&self) -> TermView {
        TermView { value: self.value@, wdf: self.wdf, positions: self.positions@ }
    }
}

impl Term {
    /// The term itself, as raw bytes.
    pub fn bytes(&self) -> (r: &Vec<u8>)
        ensures
            r@ == self@.value,
    {
        &self.value
    }

    /// The within-document frequency of this term.
    pub fn wdf(&self) -> (r: u32)
        ensures
            r == self@.wdf,
    {
        self.wdf
    }

    /// The number of recorded positions of this term.
    pub fn positions_len(&self) -> (r: usize)
        ensures
            r == self@.positions.len(),
    {
        self.positions.len()
    }

    /// A cursor pair over the recorded positions of this term.
    pub fn positions(&self) -> (r: SeqCursor<'_, Position>)
        ensures
            r.wf(),
            r.items_view() == self@.positions,
            r.fwd_pos() == 0,
            r.rev_pos() == self@.positions.len(),
    {
        SeqCursor::new(&self.positions)
    }

    /// An owned copy of this term entry.
    fn duplicate(&self) -> (r: Term)
        ensures
            r@ == self@,
    {
        let mut positions: Vec<Position> = Vec::new();
        let mut i: usize = 0;
        while i < self.positions.len()
            invariant
                0 <= i <= self.positions@.len(),
                positions@ == self.positions@.take(i as int),
            decreases self.positions@.len() - i,
        {
            positions.push(self.positions[i]);
            proof {
                assert(positions@ =~= self.positions@.take(i as int + 1));
            }
            i += 1;
        }
        proof {
            assert(positions@ =~= self.positions@);
        }
        Term { value: slice_to_vec(self.value.as_slice()), wdf: self.wdf, positions }
    }
}

/// One stored value slot.
struct ValueEntry {
    slot: u32,
    data: Vec<u8>,
}

/// The mathematical content of a document.
pub struct DocView {
    /// The document identifier; `0` means "not yet assigned".
    pub id: u32,
    /// The opaque data blob.
    pub data: Seq<u8>,
    /// The indexed terms, in insertion order, unique by term bytes.
    pub terms: Seq<TermView>,
    /// The value slots, unique by slot number.
    pub values: Seq<(u32, Seq<u8>)>,
}

/// Whether some entry of `terms` holds the term `t`.
pub open spec fn has_term_in(terms: Seq<TermView>, t: Seq<u8>) -> bool {
    exists|j: int| 0 <= j < terms.len() && terms[j].value == t
}

/// The index of the entry holding `t`.
pub open spec fn term_index_of(terms: Seq<TermView>, t: Seq<u8>) -> int {
    choose|j: int| 0 <= j < terms.len() && terms[j].value == t
}

/// The entry of `terms` holding the term `t`, if any.
pub open spec fn term_entry_in(terms: Seq<TermView>, t: Seq<u8>) -> Option<TermView> {
    if has_term_in(terms, t) {
        Some(terms[term_index_of(terms, t)])
    } else {
        None
    }
}

/// No two entries hold the same term.
pub open spec fn terms_unique(terms: Seq<TermView>) -> bool {
    forall|j: int, k: int|
        0 <= j < k < terms.len() ==> terms[j].value != terms[k].value
}

/// Whether some entry of `vals` is for slot `slot`.
pub open spec fn has_slot_in(vals: Seq<(u32, Seq<u8>)>, slot: u32) -> bool {
    exists|j: int| 0 <= j < vals.len() && vals[j].0 == slot
}

/// The index of the entry for `slot`.
pub open spec fn slot_index_of(vals: Seq<(u32, Seq<u8>)>, slot: u32) -> int {
    choose|j: int| 0 <= j < vals.len() && vals[j].0 == slot
}

/// The byte string stored in `slot`, if any.
pub open spec fn value_in(vals: Seq<(u32, Seq<u8>)>, slot: u32) -> Option<Seq<u8>> {
    if has_slot_in(vals, slot) {
        Some(vals[slot_index_of(vals, slot)].1)
    } else {
        None
    }
}

/// No two entries are for the same slot.
pub open spec fn slots_unique(vals: Seq<(u32, Seq<u8>)>) -> bool {
    forall|j: int, k: int| 0 <= j < k < vals.len() ==> vals[j].0 != vals[k].0
}

/// Whether the document carries term `t`.
pub open spec fn doc_has_term(d: DocView, t: Seq<u8>) -> bool {
    has_term_in(d.terms, t)
}

/// The byte string the document stores in `slot`, if any.
pub open spec fn doc_value(d: DocView, slot: u32) -> Option<Seq<u8>> {
    value_in(d.values, slot)
}

/// `o`, or `d` where `o` is absent.
pub open spec fn count_or(o: Option<u32>, d: u32) -> u32 {
    match o {
        Some(c) => c,
        None => d,
    }
}

/// Addition on `u32` clamped at the largest representable count.
pub open spec fn sat_add(a: u32, b: u32) -> u32 {
    if a + b > 0xffff_ffff {
        0xffff_ffff
    } else {
        (a + b) as u32
    }
}

pub(crate) fn sat_add_exec(a: u32, b: u32) -> (r: u32)
    ensures
        r == sat_add(a, b),
{
    if b > 0xffff_ffffu32 - a {
        0xffff_ffffu32
    } else {
        a + b
    }
}

/// The views of a sequence of term entries, element-wise.
pub open spec fn terms_view(ts: Seq<Term>) -> Seq<TermView> {
    Seq::new(ts.len(), |k: int| ts[k]@)
}

/// The views of a sequence of value entries, element-wise.
spec fn values_view(vs: Seq<ValueEntry>) -> Seq<(u32, Seq<u8>)> {
    Seq::new(vs.len(), |k: int| (vs[k].slot, vs[k].data@))
}

/// A document: an opaque data blob, indexed terms, and sortable value
/// slots.
pub struct Document {
    id: u32,
    data: Vec<u8>,
    terms: Vec<Term>,
    values: Vec<ValueEntry>,
}

impl View for Document {
    type V = DocView;

    closed spec fn view(&self) -> DocView {
        DocView {
            id: self.id,
            data: self.data@,
            terms: terms_view(self.terms@),
            values: values_view(self.values@),
        }
    }
}

impl Document {
    #[verifier::type_invariant]
    spec fn inv(self) -> bool {
        terms_unique(self@.terms) && slots_unique(self@.values)
    }

    /// A fresh document: no identifier, no data, no terms, no values.
    pub fn new() -> (r: Document)
        ensures
            r@.id == 0,
            r@.data == Seq::<u8>::empty(),
            r@.terms == Seq::<TermView>::empty(),
            r@.values == Seq::<(u32, Seq<u8>)>::empty(),
    {
        let d = Document { id: 0, data: Vec::new(), terms: Vec::new(), values: Vec::new() };
        proof {
            assert(d@.data =~= Seq::<u8>::empty());
            assert(d@.terms =~= Seq::<TermView>::empty());
            assert(d@.values =~= Seq::<(u32, Seq<u8>)>::empty());
        }
        d
    }

    /// The index of the entry holding `term`, if the document carries it.
    fn find_term_idx(&self, term: &[u8]) -> (r: Option<usize>)
        ensures
            r matches Some(i) ==> 0 <= i < self@.terms.len() && self@.terms[i as int].value
                == term@,
            r is None ==> !has_term_in(self@.terms, term@),
    {
        let n = self.terms.len();
        let mut i: usize = 0;
        while i < n
            invariant
                n == self@.terms.len(),
                0 <= i <= n,
                forall|j: int| 0 <= j < i ==> self@.terms[j].value != term@,
            decreases n - i,
        {
            if bytes_eq(self.terms[i].value.as_slice(), term) {
                return Some(i);
            }
            i += 1;
        }
        None
    }

    /// The index of the entry for `slot`, if the document stores one.
    fn find_slot_idx(&self, slot: u32) -> (r: Option<usize>)
        ensures
            r matches Some(i) ==> 0 <= i < self@.values.len() && self@.values[i as int].0 == slot,
            r is None ==> !has_slot_in(self@.values, slot),
    {
        let n = self.values.len();
        let mut i: usize = 0;
        while i < n
            invariant
                n == self@.values.len(),
                0 <= i <= n,
                forall|j: int| 0 <= j < i ==> self@.values[j].0 != slot,
            decreases n - i,
        {
            if self.values[i].slot == slot {
                return Some(i);
            }
            i += 1;
        }
        None
    }

    /// Add an occurrence of `term` without positional information,
    /// increasing its within-document frequency by `increment` (1 when
    /// absent); a term not yet carried is added.
    pub fn add_term(&mut self, term: &[u8], increment: Option<u32>)
        ensures
            final(self)@.id == old(self)@.id,
            final(self)@.data == old(self)@.data,
            final(self)@.values == old(self)@.values,
            forall|s: Seq<u8>|
                s != term@ ==> term_entry_in(final(self)@.terms, s) == term_entry_in(
                    old(self)@.terms,
                    s,
                ),
            term_entry_in(final(self)@.terms, term@) == Some(
                match term_entry_in(old(self)@.terms, term@) {
                    Some(e) => TermView {
                        value: term@,
                        wdf: sat_add(e.wdf, count_or(increment, 1)),
                        positions: e.positions,
                    },
                    None => TermView {
                        value: term@,
                        wdf: count_or(increment, 1),
                        positions: Seq::empty(),
                    },
                },
            ),
    {
        let inc = match increment {
            Some(c) => c,
            None => 1,
        };
        proof {
            use_type_invariant(&*self);
        }
        let ghost old_terms = self@.terms;
        let found = self.find_term_idx(term);
        let mut terms: Vec<Term> = Vec::new();
        core::mem::swap(&mut self.terms, &mut terms);
        match found {
            Some(i) => {
                proof {
                    lemma_unique_term_index(old_terms, term@, i as int);
                }
                let new_wdf = sat_add_exec(terms[i].wdf, inc);
                let e = &mut terms[i];
                e.wdf = new_wdf;
                proof {
                    let new_terms = terms_view(terms@);
                    assert(new_terms =~= old_terms.update(
                        i as int,
                        TermView {
                            value: old_terms[i as int].value,
                            wdf: sat_add(old_terms[i as int].wdf, count_or(increment, 1)),
                            positions: old_terms[i as int].positions,
                        },
                    ));
                    lemma_terms_update_entry(old_terms, new_terms, i as int);
                }
                self.terms = terms;
            },
            None => {
                let entry = Term { value: slice_to_vec(term), wdf: inc, positions: Vec::new() };
                terms.push(entry);
                proof {
                    let new_terms = terms_view(terms@);
                    assert(new_terms =~= old_terms.push(
                        TermView { value: term@, wdf: count_or(increment, 1), positions: Seq::empty() },
                    ));
                    lemma_terms_push_entry(old_terms, new_terms, term@);
                }
                self.terms = terms;
            },
        }
    }

    /// Add an occurrence of `term` at position `pos`, increasing its
    /// within-document frequency by `increment` (1 when absent) and
    /// recording the position.
    pub fn add_posting(&mut self, term: &[u8], pos: Position, increment: Option<u32>)
        ensures
            final(self)@.id == old(self)@.id,
            final(self)@.data == old(self)@.data,
            final(self)@.values == old(self)@.values,
            forall|s: Seq<u8>|
                s != term@ ==> term_entry_in(final(self)@.terms, s) == term_entry_in(
                    old(self)@.terms,
                    s,
                ),
            term_entry_in(final(self)@.terms, term@) == Some(
                match term_entry_in(old(self)@.terms, term@) {
                    Some(e) => TermView {
                        value: term@,
                        wdf: sat_add(e.wdf, count_or(increment, 1)),
                        positions: e.positions.push(pos),
                    },
                    None => TermView {
                        value: term@,
                        wdf: count_or(increment, 1),
                        positions: seq![pos],
                    },
                },
            ),
    {
        let inc = match increment {
            Some(c) => c,
            None => 1,
        };
        proof {
            use_type_invariant(&*self);
        }
        let ghost old_terms = self@.terms;
        let found = self.find_term_idx(term);
        let mut terms: Vec<Term> = Vec::new();
        core::mem::swap(&mut self.terms, &mut terms);
        match found {
            Some(i) => {
                proof {
                    lemma_unique_term_index(old_terms, term@, i as int);
                }
                let new_wdf = sat_add_exec(terms[i].wdf, inc);
                let e = &mut terms[i];
                e.wdf = new_wdf;
                e.positions.push(pos);
                proof {
                    let new_terms = terms_view(terms@);
                    assert(new_terms =~= old_terms.update(
                        i as int,
                        TermView {
                            value: old_terms[i as int].value,
                            wdf: sat_add(old_terms[i as int].wdf, count_or(increment, 1)),
                            positions: old_terms[i as int].positions.push(pos),
                        },
                    ));
                    lemma_terms_update_entry(old_terms, new_terms, i as int);
                }
                self.terms = terms;
            },
            None => {
                let mut positions: Vec<Position> = Vec::new();
                positions.push(pos);
                let entry = Term { value: slice_to_vec(term), wdf: inc, positions };
                terms.push(entry);
                proof {
                    let new_terms = terms_view(terms@);
                    assert(new_terms =~= old_terms.push(
                        TermView { value: term@, wdf: count_or(increment, 1), positions: seq![pos] },
                    ));
                    lemma_terms_push_entry(old_terms, new_terms, term@);
                }
                self.terms = terms;
            },
        }
    }

    /// Add a boolean filter term: the term is carried but its
    /// within-document frequency is left untouched (0 for a new term).
    pub fn add_boolean_term(&mut self, term: &[u8])
        ensures
            final(self)@.id == old(self)@.id,
            final(self)@.data == old(self)@.data,
            final(self)@.values == old(self)@.values,
            forall|s: Seq<u8>|
                s != term@ ==> term_entry_in(final(self)@.terms, s) == term_entry_in(
                    old(self)@.terms,
                    s,
                ),
            term_entry_in(final(self)@.terms, term@) == Some(
                match term_entry_in(old(self)@.terms, term@) {
                    Some(e) => e,
                    None => TermView { value: term@, wdf: 0, positions: Seq::empty() },
                },
            ),
    {
        self.add_term(term, Some(0));
        proof {
            let oe = term_entry_in(old(self)@.terms, term@);
            if oe is Some {
                let e = oe->Some_0;
                assert(e.value == term@);
                assert(sat_add(e.wdf, 0) == e.wdf);
                assert(TermView { value: term@, wdf: sat_add(e.wdf, 0), positions: e.positions }
                    == e);
            }
        }
    }

    /// Remove `term` and all postings associated with it; a document not
    /// carrying the term is left unchanged.
    pub fn remove_term(&mut self, term: &[u8])
        ensures
            final(self)@.id == old(self)@.id,
            final(self)@.data == old(self)@.data,
            final(self)@.values == old(self)@.values,
            forall|s: Seq<u8>|
                s != term@ ==> term_entry_in(final(self)@.terms, s) == term_entry_in(
                    old(self)@.terms,
                    s,
                ),
            term_entry_in(final(self)@.terms, term@) is None,
    {
        proof {
            use_type_invariant(&*self);
        }
        let ghost old_terms = self@.terms;
        let found = self.find_term_idx(term);
        match found {
            Some(i) => {
                proof {
                    lemma_unique_term_index(old_terms, term@, i as int);
                }
                let mut terms: Vec<Term> = Vec::new();
                core::mem::swap(&mut self.terms, &mut terms);
                terms.remove(i);
                proof {
                    let new_terms = terms_view(terms@);
                    assert(new_terms =~= old_terms.remove(i as int));
                    lemma_terms_remove_entry(old_terms, new_terms, i as int);
                }
                self.terms = terms;
            },
            None => {},
        }
    }

    /// Remove all terms and postings from the document.
    pub fn clear_terms(&mut self)
        ensures
            final(self)@.id == old(self)@.id,
            final(self)@.data == old(self)@.data,
            final(self)@.values == old(self)@.values,
            final(self)@.terms == Seq::<TermView>::empty(),
    {
        proof {
            use_type_invariant(&*self);
        }
        self.terms = Vec::new();
        proof {
            assert(self@.terms =~= Seq::<TermView>::empty());
        }
    }

    /// The opaque data blob stored in this document.
    pub fn data(&self) -> (r: Vec<u8>)
        ensures
            r@ == self@.data,
    {
        slice_to_vec(self.data.as_slice())
    }

    /// Store the opaque data blob carried alongside this document.
    pub fn set_data(&mut self, data: &[u8])
        ensures
            final(self)@.id == old(self)@.id,
            final(self)@.data == data@,
            final(self)@.terms == old(self)@.terms,
            final(self)@.values == old(self)@.values,
    {
        proof {
            use_type_invariant(&*self);
        }
        self.data = slice_to_vec(data);
    }

    /// The document identifier, if one has been assigned.
    pub fn id(&self) -> (r: Option<DocId>)
        ensures
            r is Some <==> self@.id != 0,
            r matches Some(d) ==> d.get() == self@.id,
    {
        DocId::new(self.id)
    }

    /// The document identifier as a plain integer; `0` when unassigned.
    pub fn id_raw(&self) -> (r: u32)
        ensures
            r == self@.id,
    {
        self.id
    }

    /// Give the document its identifier (the store does this when the
    /// document is added).
    pub(crate) fn assign_id(&mut self, id: u32)
        ensures
            final(self)@.id == id,
            final(self)@.data == old(self)@.data,
            final(self)@.terms == old(self)@.terms,
            final(self)@.values == old(self)@.values,
    {
        proof {
            use_type_invariant(&*self);
        }
        self.id = id;
    }

    /// Store `value` in the given slot, replacing what the slot held.
    ///
    /// The byte string is normally one produced by the value codec (or a
    /// plain string/byte value, which the codec maps to itself).
    pub fn set_value(&mut self, slot: Slot, value: &[u8])
        ensures
            final(self)@.id == old(self)@.id,
            final(self)@.data == old(self)@.data,
            final(self)@.terms == old(self)@.terms,
            forall|s: u32|
                s != slot.raw ==> value_in(final(self)@.values, s) == value_in(
                    old(self)@.values,
                    s,
                ),
            value_in(final(self)@.values, slot.raw) == Some(value@),
    {
        proof {
            use_type_invariant(&*self);
        }
        let ghost old_vals = self@.values;
        let found = self.find_slot_idx(slot.raw);
        let mut values: Vec<ValueEntry> = Vec::new();
        core::mem::swap(&mut self.values, &mut values);
        match found {
            Some(i) => {
                proof {
                    lemma_unique_slot_index(old_vals, slot.raw, i as int);
                }
                let e = &mut values[i];
                e.data = slice_to_vec(value);
                proof {
                    let new_vals = values_view(values@);
                    assert(new_vals =~= old_vals.update(i as int, (slot.raw, value@)));
                    lemma_slots_update_entry(old_vals, new_vals, i as int);
                }
                self.values = values;
            },
            None => {
                values.push(ValueEntry { slot: slot.raw, data: slice_to_vec(value) });
                proof {
                    let new_vals = values_view(values@);
                    assert(new_vals =~= old_vals.push((slot.raw, value@)));
                    lemma_slots_push_entry(old_vals, new_vals, slot.raw);
                }
                self.values = values;
            },
        }
    }

    /// The value stored in the given slot.
    ///
    /// Returns `None` when the slot holds nothing (an empty byte string
    /// counts as nothing, matching the engine's convention that an unset
    /// slot reads back as the empty string).
    pub fn value(&self, slot: Slot) -> (r: Option<Vec<u8>>)
        ensures
            match r {
                Some(v) => value_in(self@.values, slot.raw) == Some(v@) && v@.len() > 0,
                None => value_in(self@.values, slot.raw) is None || value_in(
                    self@.values,
                    slot.raw,
                ) == Some(Seq::<u8>::empty()),
            },
    {
        proof {
            use_type_invariant(&*self);
        }
        match self.find_slot_idx(slot.raw) {
            Some(i) => {
                proof {
                    lemma_unique_slot_index(self@.values, slot.raw, i as int);
                }
                if self.values[i].data.len() == 0 {
                    proof {
                        assert(value_in(self@.values, slot.raw) == Some(Seq::<u8>::empty())) by {
                            assert(self@.values[i as int].1 =~= Seq::<u8>::empty());
                        }
                    }
                    None
                } else {
                    Some(slice_to_vec(self.values[i].data.as_slice()))
                }
            },
            None => None,
        }
    }

    /// Whether the document carries the given term.
    pub fn has_term(&self, term: &[u8]) -> (r: bool)
        ensures
            r == doc_has_term(self@, term@),
    {
        match self.find_term_idx(term) {
            Some(i) => {
                proof {
                    assert(0 <= i < self@.terms.len() && self@.terms[i as int].value == term@);
                }
                true
            },
            None => false,
        }
    }

    /// Whether the document carries a term that starts with `prefix`.
    pub fn has_term_with_prefix(&self, prefix: &[u8]) -> (r: bool)
        ensures
            r == (exists|j: int|
                0 <= j < self@.terms.len() && is_prefix_of(prefix@, self@.terms[j].value)),
    {
        let n = self.terms.len();
        let mut i: usize = 0;
        while i < n
            invariant
                n == self@.terms.len(),
                0 <= i <= n,
                forall|j: int| 0 <= j < i ==> !is_prefix_of(prefix@, self@.terms[j].value),
            decreases n - i,
        {
            if bytes_starts_with(self.terms[i].value.as_slice(), prefix) {
                proof {
                    assert(is_prefix_of(prefix@, self@.terms[i as int].value));
                }
                return true;
            }
            i += 1;
        }
        false
    }

    /// A cursor pair over the terms carried by this document.
    pub fn terms(&self) -> (r: SeqCursor<'_, Term>)
        ensures
            r.wf(),
            terms_view(r.items_view()) == self@.terms,
            r.fwd_pos() == 0,
            r.rev_pos() == self@.terms.len(),
    {
        SeqCursor::new(&self.terms)
    }

    /// A snapshot copy of this document (the callback bridge hands
    /// snapshots to managed code, since the engine-side document it sees
    /// is only valid for the duration of one call).
    pub fn snapshot(&self) -> (r: Document)
        ensures
            r@ == self@,
    {
        proof {
            use_type_invariant(&*self);
        }
        let mut terms: Vec<Term> = Vec::new();
        let mut i: usize = 0;
        while i < self.terms.len()
            invariant
                0 <= i <= self.terms@.len(),
                terms_view(terms@) =~= terms_view(self.terms@).take(
                    i as int,
                ),
            decreases self.terms@.len() - i,
        {
            let ghost pre = terms@;
            let d = self.terms[i].duplicate();
            proof {
                assert(d@ == self.terms@[i as int]@);
            }
            proof {
                assert(terms_view(pre) =~= terms_view(self.terms@).take(i as int));
                assert(terms_view(pre).len() == pre.len());
                assert(i as int <= terms_view(self.terms@).len());
                assert(terms_view(self.terms@).take(i as int).len() == i as int);
            }
            terms.push(d);
            proof {
                assert(pre.len() == i as int);
                assert(terms@ == pre.push(d));
                assert(terms@.len() == i + 1);
                let m_new = terms_view(terms@);
                assert(m_new.len() == i + 1);
                let m_all = terms_view(self.terms@);
                let m_pre = terms_view(pre);
                assert forall|k: int| 0 <= k < i + 1 implies m_new[k] == m_all.take(i as int + 1)[k] by {
                    if k < i {
                        assert(m_new[k] == terms@[k]@);
                        assert(terms@[k] == pre[k]);
                        assert(m_pre[k] == m_all.take(i as int)[k]);
                    } else {
                        assert(m_new[k] == terms@[k]@);
                        assert(terms@[k] == d);
                    }
                }
                assert(terms_view(terms@) =~= terms_view(self.terms@).take(i as int + 1));
            }
            i += 1;
        }
        let mut values: Vec<ValueEntry> = Vec::new();
        let mut j: usize = 0;
        while j < self.values.len()
            invariant
                0 <= j <= self.values@.len(),
                values_view(values@) =~= values_view(self.values@).take(j as int),
            decreases self.values@.len() - j,
        {
            let ghost pre = values@;
            let d = ValueEntry {
                slot: self.values[j].slot,
                data: slice_to_vec(self.values[j].data.as_slice()),
            };
            proof {
                assert((d.slot, d.data@) == (self.values@[j as int].slot, self.values@[
                    j as int
                ].data@));
            }
            proof {
                assert(values_view(pre) =~= values_view(self.values@).take(j as int));
                assert(values_view(pre).len() == pre.len());
                assert(j as int <= values_view(self.values@).len());
                assert(values_view(self.values@).take(j as int).len() == j as int);
            }
            values.push(d);
            proof {
                assert(pre.len() == j as int);
                assert(values@ == pre.push(d));
                assert(values@.len() == j + 1);
                let m_new = values_view(values@);
                assert(m_new.len() == j + 1);
                let m_all = values_view(self.values@);
                let m_pre = values_view(pre);
                assert forall|k: int| 0 <= k < j + 1 implies m_new[k] == m_all.take(j as int + 1)[k] by {
                    if k < j {
                        assert(m_new[k] == (values@[k].slot, values@[k].data@));
                        assert(values@[k] == pre[k]);
                        assert(m_pre[k] == m_all.take(j as int)[k]);
                    } else {
                        assert(m_new[k] == (values@[k].slot, values@[k].data@));
                        assert(values@[k] == d);
                    }
                }
                assert(values_view(values@)
                    =~= values_view(self.values@).take(
                    j as int + 1,
                ));
            }
            j += 1;
        }
        let r = Document { id: self.id, data: slice_to_vec(self.data.as_slice()), terms, values };
        proof {
            assert(r@.terms =~= self@.terms);
            assert(r@.values =~= self@.values);
            assert(r@ == self@);
        }
        r
    }
}

impl Default for Document {
    /// A fresh document, as [`Document::new`] builds it.
    fn default() -> (r: Document)
        ensures
            r@.id == 0,
            r@.data == Seq::<u8>::empty(),
            r@.terms == Seq::<TermView>::empty(),
            r@.values == Seq::<(u32, Seq<u8>)>::empty(),
    {
        Document::new()
    }
}

/// With unique terms, the found index is the `choose`-picked one.
proof fn lemma_unique_term_index(terms: Seq<TermView>, t: Seq<u8>, i: int)
    requires
        terms_unique(terms),
        0 <= i < terms.len(),
        terms[i].value == t,
    ensures
        has_term_in(terms, t),
        term_index_of(terms, t) == i,
{
    assert(has_term_in(terms, t));
    let j = term_index_of(terms, t);
    assert(0 <= j < terms.len() && terms[j].value == t);
    if i != j {
        assert(false);
    }
}

/// With unique slots, the found index is the `choose`-picked one.
proof fn lemma_unique_slot_index(vals: Seq<(u32, Seq<u8>)>, slot: u32, i: int)
    requires
        slots_unique(vals),
        0 <= i < vals.len(),
        vals[i].0 == slot,
    ensures
        has_slot_in(vals, slot),
        slot_index_of(vals, slot) == i,
{
    assert(has_slot_in(vals, slot));
    let j = slot_index_of(vals, slot);
    assert(0 <= j < vals.len() && vals[j].0 == slot);
    if i != j {
        assert(false);
    }
}

/// Updating one entry in place (same term bytes) keeps uniqueness and
/// leaves every other term's entry unchanged.
proof fn lemma_terms_update_entry(old_terms: Seq<TermView>, new_terms: Seq<TermView>, i: int)
    requires
        terms_unique(old_terms),
        0 <= i < old_terms.len(),
        new_terms == old_terms.update(i, new_terms[i]),
        new_terms.len() == old_terms.len(),
        new_terms[i].value == old_terms[i].value,
    ensures
        terms_unique(new_terms),
        forall|s: Seq<u8>|
            s != old_terms[i].value ==> term_entry_in(new_terms, s) == term_entry_in(old_terms, s),
        term_entry_in(new_terms, old_terms[i].value) == Some(new_terms[i]),
{
    assert(forall|j: int| 0 <= j < new_terms.len() ==> new_terms[j].value == old_terms[j].value);
    lemma_unique_term_index(new_terms, new_terms[i].value, i);
    assert forall|s: Seq<u8>| s != old_terms[i].value implies term_entry_in(new_terms, s)
        == term_entry_in(old_terms, s) by {
        if has_term_in(old_terms, s) {
            let j = term_index_of(old_terms, s);
            assert(j != i);
            lemma_unique_term_index(new_terms, s, j);
        } else {
            if has_term_in(new_terms, s) {
                let j = term_index_of(new_terms, s);
                assert(old_terms[j].value == s);
            }
        }
    }
}

/// Appending an entry for a term not yet present keeps uniqueness and
/// leaves every other term's entry unchanged.
proof fn lemma_terms_push_entry(old_terms: Seq<TermView>, new_terms: Seq<TermView>, t: Seq<u8>)
    requires
        terms_unique(old_terms),
        !has_term_in(old_terms, t),
        new_terms.len() == old_terms.len() + 1,
        new_terms == old_terms.push(new_terms.last()),
        new_terms.last().value == t,
    ensures
        terms_unique(new_terms),
        forall|s: Seq<u8>|
            s != t ==> term_entry_in(new_terms, s) == term_entry_in(old_terms, s),
        term_entry_in(new_terms, t) == Some(new_terms.last()),
{
    assert(forall|j: int| 0 <= j < old_terms.len() ==> new_terms[j] == old_terms[j]);
    assert(forall|j: int| 0 <= j < old_terms.len() ==> old_terms[j].value != t);
    lemma_unique_term_index(new_terms, t, old_terms.len() as int);
    assert forall|s: Seq<u8>| s != t implies term_entry_in(new_terms, s) == term_entry_in(
        old_terms,
        s,
    ) by {
        if has_term_in(old_terms, s) {
            let j = term_index_of(old_terms, s);
            lemma_unique_term_index(new_terms, s, j);
        } else {
            if has_term_in(new_terms, s) {
                let j = term_index_of(new_terms, s);
                assert(0 <= j < new_terms.len() && new_terms[j].value == s);
                assert(j == old_terms.len());
            }
        }
    }
}

/// Removing an entry keeps uniqueness, drops that term, and leaves every
/// other term's entry unchanged.
proof fn lemma_terms_remove_entry(old_terms: Seq<TermView>, new_terms: Seq<TermView>, i: int)
    requires
        terms_unique(old_terms),
        0 <= i < old_terms.len(),
        new_terms == old_terms.remove(i),
    ensures
        terms_unique(new_terms),
        forall|s: Seq<u8>|
            s != old_terms[i].value ==> term_entry_in(new_terms, s) == term_entry_in(old_terms, s),
        term_entry_in(new_terms, old_terms[i].value) is None,
{
    let t = old_terms[i].value;
    assert(forall|j: int| 0 <= j < i ==> new_terms[j] == old_terms[j]);
    assert(forall|j: int| i <= j < new_terms.len() ==> new_terms[j] == old_terms[j + 1]);
    assert(terms_unique(new_terms)) by {
        assert forall|j: int, k: int| 0 <= j < k < new_terms.len() implies new_terms[j].value
            != new_terms[k].value by {
            let j0 = if j < i { j } else { j + 1 };
            let k0 = if k < i { k } else { k + 1 };
            assert(new_terms[j] == old_terms[j0] && new_terms[k] == old_terms[k0]);
        }
    }
    assert(!has_term_in(new_terms, t)) by {
        if has_term_in(new_terms, t) {
            let j = term_index_of(new_terms, t);
            let j0 = if j < i { j } else { j + 1 };
            assert(old_terms[j0].value == t && old_terms[i].value == t && j0 != i);
        }
    }
    assert forall|s: Seq<u8>| s != t implies term_entry_in(new_terms, s) == term_entry_in(
        old_terms,
        s,
    ) by {
        if has_term_in(old_terms, s) {
            let j = term_index_of(old_terms, s);
            assert(0 <= j < old_terms.len() && old_terms[j].value == s);
            assert(j != i);
            if j < i {
                lemma_unique_term_index(new_terms, s, j);
            } else {
                assert(new_terms[j - 1] == old_terms[j]);
                lemma_unique_term_index(new_terms, s, j - 1);
            }
        } else {
            if has_term_in(new_terms, s) {
                let j = term_index_of(new_terms, s);
                let j0 = if j < i { j } else { j + 1 };
                assert(old_terms[j0].value == s);
            }
        }
    }
}

/// Updating one slot entry in place (same slot number) keeps uniqueness
/// and leaves every other slot unchanged.
proof fn lemma_slots_update_entry(
    old_vals: Seq<(u32, Seq<u8>)>,
    new_vals: Seq<(u32, Seq<u8>)>,
    i: int,
)
    requires
        slots_unique(old_vals),
        0 <= i < old_vals.len(),
        new_vals == old_vals.update(i, new_vals[i]),
        new_vals.len() == old_vals.len(),
        new_vals[i].0 == old_vals[i].0,
    ensures
        slots_unique(new_vals),
        forall|s: u32| s != old_vals[i].0 ==> value_in(new_vals, s) == value_in(old_vals, s),
        value_in(new_vals, old_vals[i].0) == Some(new_vals[i].1),
{
    assert(forall|j: int| 0 <= j < new_vals.len() ==> new_vals[j].0 == old_vals[j].0);
    lemma_unique_slot_index(new_vals, new_vals[i].0, i);
    assert forall|s: u32| s != old_vals[i].0 implies value_in(new_vals, s) == value_in(
        old_vals,
        s,
    ) by {
        if has_slot_in(old_vals, s) {
            let j = slot_index_of(old_vals, s);
            assert(j != i);
            lemma_unique_slot_index(new_vals, s, j);
        } else {
            if has_slot_in(new_vals, s) {
                let j = slot_index_of(new_vals, s);
                assert(old_vals[j].0 == s);
            }
        }
    }
}

/// Appending an entry for a slot not yet present keeps uniqueness and
/// leaves every other slot unchanged.
proof fn lemma_slots_push_entry(
    old_vals: Seq<(u32, Seq<u8>)>,
    new_vals: Seq<(u32, Seq<u8>)>,
    slot: u32,
)
    requires
        slots_unique(old_vals),
        !has_slot_in(old_vals, slot),
        new_vals.len() == old_vals.len() + 1,
        new_vals == old_vals.push(new_vals.last()),
        new_vals.last().0 == slot,
    ensures
        slots_unique(new_vals),
        forall|s: u32| s != slot ==> value_in(new_vals, s) == value_in(old_vals, s),
        value_in(new_vals, slot) == Some(new_vals.last().1),
{
    assert(forall|j: int| 0 <= j < old_vals.len() ==> new_vals[j] == old_vals[j]);
    assert(forall|j: int| 0 <= j < old_vals.len() ==> old_vals[j].0 != slot);
    lemma_unique_slot_index(new_vals, slot, old_vals.len() as int);
    assert forall|s: u32| s != slot implies value_in(new_vals, s) == value_in(old_vals, s) by {
        if has_slot_in(old_vals, s) {
            let j = slot_index_of(old_vals, s);
            lemma_unique_slot_index(new_vals, s, j);
        } else {
            if has_slot_in(new_vals, s) {
                let j = slot_index_of(new_vals, s);
                assert(0 <= j < new_vals.len() && new_vals[j].0 == s);
                assert(j == old_vals.len());
            }
        }
    }
}

} // verus!
