//! Queries: the operator tree a search evaluates against stored documents.
//!
//! A query is built from leaves (a term, a value-range test against a slot,
//! a wildcard pattern, match-all, match-nothing, the invalid sentinel) and
//! binary combinations under an [`Operator`]. The boolean matching
//! semantics of a query against one document is given by [`query_matches`];
//! ranking and traversal order belong to the engine and are outside this
//! model, which visits documents in identifier order.

use vstd::prelude::*;
use vstd::slice::slice_to_vec;

use crate::doc::{doc_has_term, doc_value, DocView};
use crate::value::{bytes_eq, bytes_le, is_prefix_of, lex_le};
use crate::{Document, Slot};

verus! {

/// The operators a query tree can combine subqueries with, plus the leaf
/// markers the engine reports for leaf queries.
#[derive(Debug, Clone, Copy, PartialEq, Eq, Structural)]
pub enum Operator {
    /// Only matches documents which match all subqueries
    And,
    /// Matches documents which match at least one subquery
    Or,
    /// Matches documents which match only the first subquery
    AndNot,
    /// Matches documents which match an odd number of subqueries
    XOr,
    /// Matches documents which match the first subquery, taking extra
    /// weight from the remaining subqueries
    AndMaybe,
    /// Like `And`, but weight is only taken from the first subquery
    Filter,
    /// Matches documents where all subqueries match near one another
    Near,
    /// Matches documents where all subqueries match near one another, in
    /// order
    Phrase,
    /// Matches documents with a value slot inside a range
    ValueRange,
    /// Scales the weight contributed by a subquery
    ScaleWeight,
    /// Picks the best few subqueries and combines them with `Or`
    EliteSet,
    /// Matches documents with a value slot at or above a bound
    ValueGe,
    /// Matches documents with a value slot at or below a bound
    ValueLe,
    /// Matches documents matching any subquery, weighted as one term
    Synonym,
    /// Takes the maximum weight of any subquery
    Max,
    /// Wildcard expansion
    Wildcard,
    /// The invalid-query sentinel
    Invalid,
    /// A leaf: a single term
    LeafTerm,
    /// A leaf: a posting source
    LeafPostingSource,
    /// A leaf: matches every document
    LeafMatchAll,
    /// A leaf: matches no document
    LeafMatchNothing,
}

impl Operator {
    /// The numeric code the engine's interface fixes for this operator.
    pub open spec fn code_spec(self) -> u32 {
        match self {
            Operator::And => 0,
            Operator::Or => 1,
            Operator::AndNot => 2,
            Operator::XOr => 3,
            Operator::AndMaybe => 4,
            Operator::Filter => 5,
            Operator::Near => 6,
            Operator::Phrase => 7,
            Operator::ValueRange => 8,
            Operator::ScaleWeight => 9,
            Operator::EliteSet => 10,
            Operator::ValueGe => 11,
            Operator::ValueLe => 12,
            Operator::Synonym => 13,
            Operator::Max => 14,
            Operator::Wildcard => 15,
            Operator::Invalid => 99,
            Operator::LeafTerm => 100,
            Operator::LeafPostingSource => 101,
            Operator::LeafMatchAll => 102,
            Operator::LeafMatchNothing => 103,
        }
    }

    /// The operator a numeric code names, if any.
    pub open spec fn from_code_spec(code: u32) -> Option<Operator> {
        if code == 0 {
            Some(Operator::And)
        } else if code == 1 {
            Some(Operator::Or)
        } else if code == 2 {
            Some(Operator::AndNot)
        } else if code == 3 {
            Some(Operator::XOr)
        } else if code == 4 {
            Some(Operator::AndMaybe)
        } else if code == 5 {
            Some(Operator::Filter)
        } else if code == 6 {
            Some(Operator::Near)
        } else if code == 7 {
            Some(Operator::Phrase)
        } else if code == 8 {
            Some(Operator::ValueRange)
        } else if code == 9 {
            Some(Operator::ScaleWeight)
        } else if code == 10 {
            Some(Operator::EliteSet)
        } else if code == 11 {
            Some(Operator::ValueGe)
        } else if code == 12 {
            Some(Operator::ValueLe)
        } else if code == 13 {
            Some(Operator::Synonym)
        } else if code == 14 {
            Some(Operator::Max)
        } else if code == 15 {
            Some(Operator::Wildcard)
        } else if code == 99 {
            Some(Operator::Invalid)
        } else if code == 100 {
            Some(Operator::LeafTerm)
        } else if code == 101 {
            Some(Operator::LeafPostingSource)
        } else if code == 102 {
            Some(Operator::LeafMatchAll)
        } else if code == 103 {
            Some(Operator::LeafMatchNothing)
        } else {
            None
        }
    }

    /// The numeric code of this operator.
    pub fn code(self) -> (r: u32)
        ensures
            r == self.code_spec(),
    {
        match self {
            Operator::And => 0,
            Operator::Or => 1,
            Operator::AndNot => 2,
            Operator::XOr => 3,
            Operator::AndMaybe => 4,
            Operator::Filter => 5,
            Operator::Near => 6,
            Operator::Phrase => 7,
            Operator::ValueRange => 8,
            Operator::ScaleWeight => 9,
            Operator::EliteSet => 10,
            Operator::ValueGe => 11,
            Operator::ValueLe => 12,
            Operator::Synonym => 13,
            Operator::Max => 14,
            Operator::Wildcard => 15,
            Operator::Invalid => 99,
            Operator::LeafTerm => 100,
            Operator::LeafPostingSource => 101,
            Operator::LeafMatchAll => 102,
            Operator::LeafMatchNothing => 103,
        }
    }

    /// The operator a numeric code names, if any.
    pub fn from_code(code: u32) -> (r: Option<Operator>)
        ensures
            r == Operator::from_code_spec(code),
    {
        if code == 0 {
            Some(Operator::And)
        } else if code == 1 {
            Some(Operator::Or)
        } else if code == 2 {
            Some(Operator::AndNot)
        } else if code == 3 {
            Some(Operator::XOr)
        } else if code == 4 {
            Some(Operator::AndMaybe)
        } else if code == 5 {
            Some(Operator::Filter)
        } else if code == 6 {
            Some(Operator::Near)
        } else if code == 7 {
            Some(Operator::Phrase)
        } else if code == 8 {
            Some(Operator::ValueRange)
        } else if code == 9 {
            Some(Operator::ScaleWeight)
        } else if code == 10 {
            Some(Operator::EliteSet)
        } else if code == 11 {
            Some(Operator::ValueGe)
        } else if code == 12 {
            Some(Operator::ValueLe)
        } else if code == 13 {
            Some(Operator::Synonym)
        } else if code == 14 {
            Some(Operator::Max)
        } else if code == 15 {
            Some(Operator::Wildcard)
        } else if code == 99 {
            Some(Operator::Invalid)
        } else if code == 100 {
            Some(Operator::LeafTerm)
        } else if code == 101 {
            Some(Operator::LeafPostingSource)
        } else if code == 102 {
            Some(Operator::LeafMatchAll)
        } else if code == 103 {
            Some(Operator::LeafMatchNothing)
        } else {
            None
        }
    }

    /// The code map is a bijection onto the codes it uses: decoding an
    /// operator's code yields the operator back.
    pub proof fn lemma_code_round_trip(op: Operator)
        ensures
            Operator::from_code_spec(op.code_spec()) == Some(op),
    {
    }
}

/// How a wildcard query combines its expansions.
#[derive(Debug, Clone, Copy, PartialEq, Eq, Structural)]
pub enum WildcardCombiner {
    /// Weight the expansions as a single term
    Synonym,
    /// Combine the expansions with `Or`
    Or,
    /// Take the maximum weight of any expansion
    Max,
}

impl WildcardCombiner {
    /// The operator this combiner stands for.
    pub fn as_operator(self) -> (r: Operator)
        ensures
            r == (match self {
                WildcardCombiner::Synonym => Operator::Synonym,
                WildcardCombiner::Or => Operator::Or,
                WildcardCombiner::Max => Operator::Max,
            }),
    {
        match self {
            WildcardCombiner::Synonym => Operator::Synonym,
            WildcardCombiner::Or => Operator::Or,
            WildcardCombiner::Max => Operator::Max,
        }
    }
}

/// What a wildcard query does when its expansion exceeds the limit.
#[derive(Debug, Clone, Copy, PartialEq, Eq, Structural)]
pub enum WildcardLimitBehavior {
    /// Refuse the query
    Error,
    /// Keep the first expansions found
    FirstN,
    /// Keep the most frequent expansions
    MostFrequent,
}

/// The mathematical content of a query.
pub enum QView {
    /// Matches no document.
    MatchNothing,
    /// Matches every document.
    MatchAll,
    /// The invalid-query sentinel.
    Invalid,
    /// Matches documents carrying the term.
    Term { term: Seq<u8>, wqf: u32, pos: u32 },
    /// Matches documents whose slot holds a value in `[lower, upper]`.
    ValueRange { slot: u32, lower: Seq<u8>, upper: Seq<u8> },
    /// Matches documents whose slot holds a value at or above the bound.
    ValueGe { slot: u32, limit: Seq<u8> },
    /// Matches documents whose slot holds a value at or below the bound.
    ValueLe { slot: u32, limit: Seq<u8> },
    /// Matches documents carrying a term that starts with the pattern.
    Wildcard {
        pattern: Seq<u8>,
        max_expansion: u32,
        limit_behavior: WildcardLimitBehavior,
        combiner: WildcardCombiner,
    },
    /// Two subqueries combined under an operator.
    Combine { op: Operator, left: Box<QView>, right: Box<QView> },
}

/// A query, ready for use in a search.
pub enum Query {
    /// Matches no document.
    MatchNothing,
    /// Matches every document.
    MatchAll,
    /// The invalid-query sentinel (what a declining field processor
    /// produces).
    Invalid,
    /// Matches documents carrying the term.
    Term {
        /// The term, as raw bytes.
        term: Vec<u8>,
        /// The within-query frequency.
        wqf: u32,
        /// The term position in the query.
        pos: u32,
    },
    /// Matches documents whose slot holds a value in `[lower, upper]`.
    ValueRange {
        /// The value slot tested.
        slot: u32,
        /// The inclusive lower bound, as an encoded value byte string.
        lower: Vec<u8>,
        /// The inclusive upper bound, as an encoded value byte string.
        upper: Vec<u8>,
    },
    /// Matches documents whose slot holds a value at or above the bound.
    ValueGe {
        /// The value slot tested.
        slot: u32,
        /// The inclusive bound, as an encoded value byte string.
        limit: Vec<u8>,
    },
    /// Matches documents whose slot holds a value at or below the bound.
    ValueLe {
        /// The value slot tested.
        slot: u32,
        /// The inclusive bound, as an encoded value byte string.
        limit: Vec<u8>,
    },
    /// Matches documents carrying a term that starts with the pattern.
    Wildcard {
        /// The pattern; a term matches when the pattern is its prefix.
        pattern: Vec<u8>,
        /// The most expansions allowed (0: no limit).
        max_expansion: u32,
        /// What to do when the expansion exceeds the limit.
        limit_behavior: WildcardLimitBehavior,
        /// How the expansions are combined.
        combiner: WildcardCombiner,
    },
    /// Two subqueries combined under an operator.
    Combine {
        /// The combining operator.
        op: Operator,
        /// The first subquery.
        left: Box<Query>,
        /// The second subquery.
        right: Box<Query>,
    },
}

/// The view of a query: the same tree over mathematical byte strings.
pub open spec fn qview(q: Query) -> QView
    decreases q,
{
    match q {
        Query::MatchNothing => QView::MatchNothing,
        Query::MatchAll => QView::MatchAll,
        Query::Invalid => QView::Invalid,
        Query::Term { term, wqf, pos } => QView::Term { term: term@, wqf, pos },
        Query::ValueRange { slot, lower, upper } => QView::ValueRange {
            slot,
            lower: lower@,
            upper: upper@,
        },
        Query::ValueGe { slot, limit } => QView::ValueGe { slot, limit: limit@ },
        Query::ValueLe { slot, limit } => QView::ValueLe { slot, limit: limit@ },
        Query::Wildcard { pattern, max_expansion, limit_behavior, combiner } => QView::Wildcard {
            pattern: pattern@,
            max_expansion,
            limit_behavior,
            combiner,
        },
        Query::Combine { op, left, right } => QView::Combine {
            op,
            left: Box::new(qview(*left)),
            right: Box::new(qview(*right)),
        },
    }
}

impl View for Query {
    type V = QView;

    open spec fn view(&self) -> QView {
        qview(*self)
    }
}

/// The value a document presents in a slot for range filtering: a stored,
/// non-empty byte string (an unset slot reads back as the empty string and
/// presents nothing).
pub open spec fn slot_bytes(d: DocView, slot: u32) -> Option<Seq<u8>> {
    match doc_value(d, slot) {
        Some(v) => if v.len() > 0 {
            Some(v)
        } else {
            None
        },
        None => None,
    }
}

/// Whether the query matches the document.
///
/// This is the boolean retrieval semantics of the model: proximity
/// operators (`Near`, `Phrase`) match where their conjuncts match, and
/// weight-only operators (`ScaleWeight`, `AndMaybe`, `Max`, `EliteSet`)
/// match as their boolean skeletons do; how the engine would weight them is
/// outside the model.
pub open spec fn query_matches(q: QView, d: DocView) -> bool
    decreases q,
{
    match q {
        QView::MatchNothing => false,
        QView::MatchAll => true,
        QView::Invalid => false,
        QView::Term { term, .. } => doc_has_term(d, term),
        QView::ValueRange { slot, lower, upper } => match slot_bytes(d, slot) {
            Some(v) => lex_le(lower, v) && lex_le(v, upper),
            None => false,
        },
        QView::ValueGe { slot, limit } => match slot_bytes(d, slot) {
            Some(v) => lex_le(limit, v),
            None => false,
        },
        QView::ValueLe { slot, limit } => match slot_bytes(d, slot) {
            Some(v) => lex_le(v, limit),
            None => false,
        },
        QView::Wildcard { pattern, .. } => exists|j: int|
            0 <= j < d.terms.len() && is_prefix_of(pattern, d.terms[j].value),
        QView::Combine { op, left, right } => {
            let l = query_matches(*left, d);
            let r = query_matches(*right, d);
            match op {
                Operator::And => l && r,
                Operator::Or => l || r,
                Operator::AndNot => l && !r,
                Operator::XOr => l != r,
                Operator::AndMaybe => l,
                Operator::Filter => l && r,
                Operator::Near => l && r,
                Operator::Phrase => l && r,
                Operator::Synonym => l || r,
                Operator::Max => l || r,
                Operator::EliteSet => l || r,
                Operator::ScaleWeight => l,
                _ => false,
            }
        },
    }
}

/// The operator the engine reports for a query: the combining operator of
/// a combination, and the leaf marker of a leaf.
pub open spec fn query_operator(q: QView) -> Operator {
    match q {
        QView::MatchNothing => Operator::LeafMatchNothing,
        QView::MatchAll => Operator::LeafMatchAll,
        QView::Invalid => Operator::Invalid,
        QView::Term { .. } => Operator::LeafTerm,
        QView::ValueRange { .. } => Operator::ValueRange,
        QView::ValueGe { .. } => Operator::ValueGe,
        QView::ValueLe { .. } => Operator::ValueLe,
        QView::Wildcard { .. } => Operator::Wildcard,
        QView::Combine { op, .. } => op,
    }
}

/// The terms a query mentions, left to right, repeats kept.
pub open spec fn query_terms(q: QView) -> Seq<Seq<u8>>
    decreases q,
{
    match q {
        QView::Term { term, .. } => seq![term],
        QView::Combine { left, right, .. } => query_terms(*left) + query_terms(*right),
        _ => Seq::empty(),
    }
}

/// `s` with every repeated byte string dropped, keeping first occurrences.
pub open spec fn dedup_first(s: Seq<Seq<u8>>) -> Seq<Seq<u8>>
    decreases s.len(),
{
    if s.len() == 0 {
        Seq::empty()
    } else {
        let p = dedup_first(s.drop_last());
        if s.drop_last().contains(s.last()) {
            p
        } else {
            p.push(s.last())
        }
    }
}

/// The views of a sequence of byte vectors, element-wise.
pub open spec fn bytes_seq_view(s: Seq<Vec<u8>>) -> Seq<Seq<u8>> {
    Seq::new(s.len(), |k: int| s[k]@)
}

impl Query {
    /// Construct a query for the given term, with a within-query frequency
    /// (1 when absent) and a term position (0 when absent).
    ///
    /// The empty term is the engine's representation of match-all.
    pub fn term(term: &[u8], wqf: Option<u32>, pos: Option<u32>) -> (r: Query)
        ensures
            term@.len() == 0 ==> r@ == QView::MatchAll,
            term@.len() > 0 ==> r@ == (QView::Term {
                term: term@,
                wqf: crate::doc::count_or(wqf, 1),
                pos: crate::doc::count_or(pos, 0),
            }),
    {
        if term.len() == 0 {
            return Query::MatchAll;
        }
        let wqf = match wqf {
            Some(w) => w,
            None => 1,
        };
        let pos = match pos {
            Some(p) => p,
            None => 0,
        };
        Query::Term { term: slice_to_vec(term), wqf, pos }
    }

    /// Construct a query that matches any document.
    pub fn match_all() -> (r: Query)
        ensures
            r@ == QView::MatchAll,
    {
        Query::MatchAll
    }

    /// Construct a query that matches no document.
    pub fn match_nothing() -> (r: Query)
        ensures
            r@ == QView::MatchNothing,
    {
        Query::MatchNothing
    }

    /// The invalid-query sentinel.
    pub(crate) fn invalid() -> (r: Query)
        ensures
            r@ == QView::Invalid,
    {
        Query::Invalid
    }

    /// An owned copy of this query.
    pub fn duplicate(&self) -> (r: Query)
        ensures
            r@ == self@,
        decreases self,
    {
        match self {
            Query::MatchNothing => Query::MatchNothing,
            Query::MatchAll => Query::MatchAll,
            Query::Invalid => Query::Invalid,
            Query::Term { term, wqf, pos } => Query::Term {
                term: slice_to_vec(term.as_slice()),
                wqf: *wqf,
                pos: *pos,
            },
            Query::ValueRange { slot, lower, upper } => Query::ValueRange {
                slot: *slot,
                lower: slice_to_vec(lower.as_slice()),
                upper: slice_to_vec(upper.as_slice()),
            },
            Query::ValueGe { slot, limit } => Query::ValueGe {
                slot: *slot,
                limit: slice_to_vec(limit.as_slice()),
            },
            Query::ValueLe { slot, limit } => Query::ValueLe {
                slot: *slot,
                limit: slice_to_vec(limit.as_slice()),
            },
            Query::Wildcard { pattern, max_expansion, limit_behavior, combiner } => Query::Wildcard {
                pattern: slice_to_vec(pattern.as_slice()),
                max_expansion: *max_expansion,
                limit_behavior: *limit_behavior,
                combiner: *combiner,
            },
            Query::Combine { op, left, right } => Query::Combine {
                op: *op,
                left: Box::new(left.duplicate()),
                right: Box::new(right.duplicate()),
            },
        }
    }

    /// Construct a query by combining two others with the given operator.
    pub fn combine(op: Operator, a: &Query, b: &Query) -> (r: Query)
        ensures
            query_operator(r@) == op,
            r@ == (QView::Combine { op, left: Box::new(a@), right: Box::new(b@) }),
    {
        Query::Combine { op, left: Box::new(a.duplicate()), right: Box::new(b.duplicate()) }
    }

    /// Construct a query by combining two terms with the given operator.
    pub fn combine_terms(op: Operator, a: &[u8], b: &[u8]) -> (r: Query)
        ensures
            r@ == (QView::Combine {
                op,
                left: Box::new(
                    if a@.len() == 0 {
                        QView::MatchAll
                    } else {
                        QView::Term { term: a@, wqf: 1, pos: 0 }
                    },
                ),
                right: Box::new(
                    if b@.len() == 0 {
                        QView::MatchAll
                    } else {
                        QView::Term { term: b@, wqf: 1, pos: 0 }
                    },
                ),
            }),
    {
        let qa = Query::term(a, None, None);
        let qb = Query::term(b, None, None);
        Query::Combine { op, left: Box::new(qa), right: Box::new(qb) }
    }

    /// Construct a query for a single-ended value range: slot at or above
    /// `lower`.
    pub fn value_ge(slot: Slot, lower: &[u8]) -> (r: Query)
        ensures
            r@ == (QView::ValueGe { slot: slot.raw, limit: lower@ }),
    {
        Query::ValueGe { slot: slot.raw, limit: slice_to_vec(lower) }
    }

    /// Construct a query for a single-ended value range: slot at or below
    /// `upper`.
    pub fn value_le(slot: Slot, upper: &[u8]) -> (r: Query)
        ensures
            r@ == (QView::ValueLe { slot: slot.raw, limit: upper@ }),
    {
        Query::ValueLe { slot: slot.raw, limit: slice_to_vec(upper) }
    }

    /// Construct a query for a two-ended value range.
    pub fn value_range(slot: Slot, lower: &[u8], upper: &[u8]) -> (r: Query)
        ensures
            r@ == (QView::ValueRange { slot: slot.raw, lower: lower@, upper: upper@ }),
    {
        Query::ValueRange {
            slot: slot.raw,
            lower: slice_to_vec(lower),
            upper: slice_to_vec(upper),
        }
    }

    /// Construct a wildcard query: matches documents carrying a term that
    /// starts with `pattern`.
    pub fn wildcard(
        pattern: &[u8],
        max_expansion: Option<u32>,
        limit_behavior: Option<WildcardLimitBehavior>,
        combiner: Option<WildcardCombiner>,
    ) -> (r: Query)
        ensures
            r@ == (QView::Wildcard {
                pattern: pattern@,
                max_expansion: crate::doc::count_or(max_expansion, 0),
                limit_behavior: match limit_behavior {
                    Some(b) => b,
                    None => WildcardLimitBehavior::Error,
                },
                combiner: match combiner {
                    Some(c) => c,
                    None => WildcardCombiner::Synonym,
                },
            }),
    {
        let max_expansion = match max_expansion {
            Some(m) => m,
            None => 0,
        };
        let limit_behavior = match limit_behavior {
            Some(b) => b,
            None => WildcardLimitBehavior::Error,
        };
        let combiner = match combiner {
            Some(c) => c,
            None => WildcardCombiner::Synonym,
        };
        Query::Wildcard { pattern: slice_to_vec(pattern), max_expansion, limit_behavior, combiner }
    }

    /// Whether this query is the invalid sentinel.
    pub fn is_invalid(&self) -> (r: bool)
        ensures
            r == (query_operator(self@) == Operator::Invalid),
    {
        match self {
            Query::Invalid => true,
            Query::Combine { op, .. } => *op == Operator::Invalid,
            _ => false,
        }
    }

    /// The operator of this query (a leaf marker for leaves).
    pub fn operator(&self) -> (r: Operator)
        ensures
            r == query_operator(self@),
    {
        match self {
            Query::MatchNothing => Operator::LeafMatchNothing,
            Query::MatchAll => Operator::LeafMatchAll,
            Query::Invalid => Operator::Invalid,
            Query::Term { .. } => Operator::LeafTerm,
            Query::ValueRange { .. } => Operator::ValueRange,
            Query::ValueGe { .. } => Operator::ValueGe,
            Query::ValueLe { .. } => Operator::ValueLe,
            Query::Wildcard { .. } => Operator::Wildcard,
            Query::Combine { op, .. } => *op,
        }
    }

    /// Whether this query matches the document, under the model's boolean
    /// retrieval semantics.
    pub fn matches(&self, doc: &Document) -> (r: bool)
        ensures
            r == query_matches(self@, doc@),
        decreases self,
    {
        match self {
            Query::MatchNothing => false,
            Query::MatchAll => true,
            Query::Invalid => false,
            Query::Term { term, .. } => doc.has_term(term.as_slice()),
            Query::ValueRange { slot, lower, upper } => {
                match doc.value(Slot::new(*slot)) {
                    Some(v) => bytes_le(lower.as_slice(), v.as_slice()) && bytes_le(
                        v.as_slice(),
                        upper.as_slice(),
                    ),
                    None => false,
                }
            },
            Query::ValueGe { slot, limit } => {
                match doc.value(Slot::new(*slot)) {
                    Some(v) => bytes_le(limit.as_slice(), v.as_slice()),
                    None => false,
                }
            },
            Query::ValueLe { slot, limit } => {
                match doc.value(Slot::new(*slot)) {
                    Some(v) => bytes_le(v.as_slice(), limit.as_slice()),
                    None => false,
                }
            },
            Query::Wildcard { pattern, .. } => doc.has_term_with_prefix(pattern.as_slice()),
            Query::Combine { op, left, right } => {
                let l = left.matches(doc);
                let r = right.matches(doc);
                match op {
                    Operator::And => l && r,
                    Operator::Or => l || r,
                    Operator::AndNot => l && !r,
                    Operator::XOr => l != r,
                    Operator::AndMaybe => l,
                    Operator::Filter => l && r,
                    Operator::Near => l && r,
                    Operator::Phrase => l && r,
                    Operator::Synonym => l || r,
                    Operator::Max => l || r,
                    Operator::EliteSet => l || r,
                    Operator::ScaleWeight => l,
                    _ => false,
                }
            },
        }
    }

    /// The number of direct subqueries (2 for a combination, 0 for a
    /// leaf).
    pub fn num_subqueries(&self) -> (r: usize)
        ensures
            self@ is Combine ==> r == 2,
            !(self@ is Combine) ==> r == 0,
    {
        match self {
            Query::Combine { .. } => 2,
            _ => 0,
        }
    }

    /// The `i`-th direct subquery, if there is one.
    pub fn subquery(&self, i: usize) -> (r: Option<&Query>)
        ensures
            match r {
                Some(q) => self@ is Combine && ((i == 0 && q@ == *self@->Combine_left) || (i == 1
                    && q@ == *self@->Combine_right)),
                None => !(self@ is Combine) || i >= 2,
            },
    {
        match self {
            Query::Combine { left, right, .. } => {
                if i == 0 {
                    Some(left)
                } else if i == 1 {
                    Some(right)
                } else {
                    None
                }
            },
            _ => None,
        }
    }

    /// A cursor over the direct subqueries of this query.
    pub fn subqueries(&self) -> (r: SubqueryIter<'_>)
        ensures
            r.parent_view() == self@,
            r.pos() == 0,
            r.total() == (if self@ is Combine {
                2int
            } else {
                0int
            }),
    {
        SubqueryIter::new(self)
    }

    /// The terms this query mentions, left to right, repeats kept.
    pub fn terms(&self) -> (r: Vec<Vec<u8>>)
        ensures
            bytes_seq_view(r@) == query_terms(self@),
        decreases self,
    {
        match self {
            Query::Term { term, .. } => {
                let mut r: Vec<Vec<u8>> = Vec::new();
                r.push(slice_to_vec(term.as_slice()));
                proof {
                    assert(bytes_seq_view(r@) =~= query_terms(self@));
                }
                r
            },
            Query::Combine { left, right, .. } => {
                let mut r = left.terms();
                let ghost left_part = r@;
                let mut rt = right.terms();
                let ghost right_part = rt@;
                r.append(&mut rt);
                proof {
                    assert(r@ == left_part + right_part);
                    assert(bytes_seq_view(r@) =~= query_terms(self@));
                }
                r
            },
            _ => {
                let r: Vec<Vec<u8>> = Vec::new();
                proof {
                    assert(bytes_seq_view(r@) =~= query_terms(self@));
                }
                r
            },
        }
    }

    /// The terms this query mentions, first occurrences only.
    pub fn unique_terms(&self) -> (r: Vec<Vec<u8>>)
        ensures
            bytes_seq_view(r@) == dedup_first(query_terms(self@)),
    {
        let all = self.terms();
        let mut r: Vec<Vec<u8>> = Vec::new();
        let mut i: usize = 0;
        while i < all.len()
            invariant
                0 <= i <= all@.len(),
                bytes_seq_view(r@) == dedup_first(bytes_seq_view(all@).take(i as int)),
            decreases all@.len() - i,
        {
            let ghost pre = r@;
            let present = contains_bytes(&r, all[i].as_slice());
            proof {
                lemma_contains_is_seen(bytes_seq_view(r@), bytes_seq_view(all@).take(i as int), all@[i as int]@);
                assert(bytes_seq_view(all@).take(i as int + 1).drop_last() =~= bytes_seq_view(
                    all@,
                ).take(i as int));
                assert(bytes_seq_view(all@).take(i as int + 1).last() == all@[i as int]@);
            }
            if !present {
                r.push(slice_to_vec(all[i].as_slice()));
                proof {
                    assert(bytes_seq_view(r@) =~= bytes_seq_view(pre).push(all@[i as int]@));
                }
            }
            proof {
                assert(bytes_seq_view(r@) == dedup_first(bytes_seq_view(all@).take(i as int + 1)));
            }
            i += 1;
        }
        proof {
            assert(bytes_seq_view(all@).take(all@.len() as int) =~= bytes_seq_view(all@));
            assert(bytes_seq_view(all@) == query_terms(self@));
        }
        r
    }
}


/// A cursor over a query's direct subqueries.
pub struct SubqueryIter<'q> {
    parent: &'q Query,
    cursor: usize,
    length: usize,
}

impl<'q> SubqueryIter<'q> {
    /// The recorded total is what the query actually has.
    #[verifier::type_invariant]
    spec fn inv(self) -> bool {
        self.total() == (if self.parent_view() is Combine {
            2int
        } else {
            0int
        })
    }

    /// The query iterated over.
    pub closed spec fn parent_view(&self) -> QView {
        self.parent@
    }

    /// The position of the next subquery yielded.
    pub closed spec fn pos(&self) -> int {
        self.cursor as int
    }

    /// How many direct subqueries there are in all.
    pub closed spec fn total(&self) -> int {
        self.length as int
    }

    /// A cursor over the direct subqueries of `query`.
    pub fn new(query: &'q Query) -> (r: SubqueryIter<'q>)
        ensures
            r.parent_view() == query@,
            r.pos() == 0,
            r.total() == (if query@ is Combine {
                2int
            } else {
                0int
            }),
    {
        let length = query.num_subqueries();
        SubqueryIter { parent: query, cursor: 0, length }
    }

    /// How many subqueries remain.
    pub fn len(&self) -> (r: usize)
        requires
            0 <= self.pos() <= self.total(),
        ensures
            r == self.total() - self.pos(),
    {
        self.length - self.cursor
    }

    /// Yield the subquery at the cursor, then advance.
    pub fn next(&mut self) -> (r: Option<&'q Query>)
        ensures
            final(self).parent_view() == old(self).parent_view(),
            final(self).total() == old(self).total(),
            old(self).pos() >= old(self).total() ==> r is None && final(self).pos() == old(
                self,
            ).pos(),
            old(self).pos() < old(self).total() ==> {
                &&& final(self).pos() == old(self).pos() + 1
                &&& r matches Some(q)
                &&& old(self).parent_view() is Combine
                &&& (old(self).pos() == 0 ==> q@ == *old(self).parent_view()->Combine_left)
                &&& (old(self).pos() == 1 ==> q@ == *old(self).parent_view()->Combine_right)
            },
    {
        proof {
            use_type_invariant(&*self);
        }
        if self.cursor < self.length {
            let r = self.parent.subquery(self.cursor);
            self.cursor += 1;
            proof {
                assert(r is Some);
            }
            r
        } else {
            None
        }
    }
}

impl Default for Query {
    /// A query matching no document, as [`Query::match_nothing`] builds
    /// it.
    fn default() -> (r: Query)
        ensures
            r@ == QView::MatchNothing,
    {
        Query::MatchNothing
    }
}

/// Whether one of the byte vectors holds exactly the bytes of `b`.
pub fn contains_bytes(v: &Vec<Vec<u8>>, b: &[u8]) -> (r: bool)
    ensures
        r == bytes_seq_view(v@).contains(b@),
{
    let mut i: usize = 0;
    while i < v.len()
        invariant
            0 <= i <= v@.len(),
            forall|j: int| 0 <= j < i ==> v@[j]@ != b@,
        decreases v@.len() - i,
    {
        if bytes_eq(v[i].as_slice(), b) {
            proof {
                assert(bytes_seq_view(v@)[i as int] == b@);
            }
            return true;
        }
        i += 1;
    }
    proof {
        if bytes_seq_view(v@).contains(b@) {
            let j = choose|j: int| 0 <= j < bytes_seq_view(v@).len() && bytes_seq_view(v@)[j] == b@;
            assert(v@[j]@ == b@);
        }
    }
    false
}

/// A byte string is in the deduplicated sequence exactly when it is in the
/// original.
proof fn lemma_contains_is_seen(d: Seq<Seq<u8>>, s: Seq<Seq<u8>>, x: Seq<u8>)
    requires
        d == dedup_first(s),
    ensures
        d.contains(x) == s.contains(x),
    decreases s.len(),
{
    if s.len() == 0 {
        assert(!s.contains(x));
        assert(!d.contains(x));
    } else {
        let p = dedup_first(s.drop_last());
        lemma_contains_is_seen(p, s.drop_last(), x);
        if s.drop_last().contains(s.last()) {
            assert(d == p);
            if s.contains(x) {
                let j = choose|j: int| 0 <= j < s.len() && s[j] == x;
                if j == s.len() - 1 {
                    assert(s.drop_last().contains(x));
                } else {
                    assert(s.drop_last()[j] == x);
                    assert(s.drop_last().contains(x));
                }
            }
            if p.contains(x) {
                let j = choose|j: int| 0 <= j < s.drop_last().len() && s.drop_last()[j] == x;
                assert(s[j] == x);
            }
        } else {
            assert(d == p.push(s.last()));
            if s.contains(x) {
                let j = choose|j: int| 0 <= j < s.len() && s[j] == x;
                if j == s.len() - 1 {
                    assert(d.last() == x);
                    assert(d.contains(x));
                } else {
                    assert(s.drop_last()[j] == x);
                    assert(s.drop_last().contains(x));
                    assert(p.contains(x));
                    let k = choose|k: int| 0 <= k < p.len() && p[k] == x;
                    assert(d[k] == x);
                }
            }
            if d.contains(x) {
                let j = choose|j: int| 0 <= j < d.len() && d[j] == x;
                if j == d.len() - 1 {
                    assert(x == s.last());
                    assert(s.contains(x));
                } else {
                    assert(p[j] == x);
                    assert(s.drop_last().contains(x));
                    let k = choose|k: int| 0 <= k < s.drop_last().len() && s.drop_last()[k] == x;
                    assert(s[k] == x);
                }
            }
        }
    }
}

} // verus!
