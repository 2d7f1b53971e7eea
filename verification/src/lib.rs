//! A safe, verified bridge in front of a natively-compiled search engine.
//!
//! The crate models the boundary between application code and the engine's
//! object model: an order-preserving value codec, a byte-oriented string
//! bridge, owning handle wrappers with an explicit upcast from the writable
//! handle to its read-only base, a bidirectional cursor adapter, and a
//! callback bridge through which user-supplied deciders, observers and
//! filters take part in the engine's traversal.

use vstd::prelude::*;

pub mod callback;
pub mod cursor;
pub mod db;
pub mod doc;
pub mod query;
pub mod range;
pub mod search;
pub mod strings;
pub mod value;

pub use callback::{
    FieldProcessor, PrefixExpandDecider, Registration, Registry, RustExpandDecider,
    RustFieldProcessor, RustMatchDecider, RustMatchSpy, RustStopper, Stopper, TermFieldProcessor,
    WordListStopper,
};
pub use db::{ConstructionError, Database, DbAction, DbBackend, DbFlags, WritableDatabase};
pub use doc::{Document, Term};
pub use query::{Operator, Query, WildcardCombiner, WildcardLimitBehavior};
pub use range::{
    DateRangeProcessor, DateTimeRangeProcessor, NumberRangeProcessor, RangeProcessor,
    RangeProcessorWrapper, StringRangeProcessor,
};
pub use search::{
    AcceptAll, Enquire, ESet, ExpandDecider, KeepAll, Match, MatchDecider, MatchSpy, MSet, RSet,
    ValueCountMatchSpy, ValueRejectDecider, Weight,
};
pub use strings::Utf8Error;

verus! {

/// A valid (non-zero) document identifier.
///
/// The engine reserves the identifier `0` to mean "no document"; a `DocId`
/// can therefore never hold it, and an absent identifier is an
/// `Option<DocId>` rather than a zero.
#[derive(Debug, Clone, Copy, PartialEq, Eq, Structural)]
pub struct DocId {
    raw: u32,
}

impl DocId {
    /// The identifier as a plain integer; never zero.
    pub closed spec fn get(self) -> u32 {
        self.raw
    }

    #[verifier::type_invariant]
    spec fn inv(self) -> bool {
        self.raw != 0
    }

    /// Attempt to create a `DocId` from the provided `u32`.
    ///
    /// Returns `None` if the `u32` is `0`, to match the engine's
    /// document-identifier semantics.
    pub fn new(value: u32) -> (r: Option<DocId>)
        ensures
            r is Some <==> value != 0,
            value != 0 ==> r->Some_0.get() == value,
    {
        if value == 0 {
            None
        } else {
            Some(DocId { raw: value })
        }
    }

    /// Wrap an identifier already known to be non-zero (the store assigns
    /// these).
    pub(crate) fn from_nonzero(value: u32) -> (r: DocId)
        requires
            value != 0,
        ensures
            r.get() == value,
    {
        DocId { raw: value }
    }

    /// The identifier as a plain integer.
    pub fn get_raw(&self) -> (r: u32)
        ensures
            r == self.get(),
            r != 0,
    {
        proof {
            use_type_invariant(self);
        }
        self.raw
    }
}

/// A position of a term occurrence within a document.
#[derive(Debug, Clone, Copy, PartialEq, Eq, Structural)]
pub struct Position {
    /// The position as a plain integer.
    pub raw: u32,
}

impl Position {
    /// Wrap a plain integer position.
    pub fn new(raw: u32) -> (r: Position)
        ensures
            r.raw == raw,
    {
        Position { raw }
    }
}

/// A value slot number: the small integer index under which one sortable
/// value is stored on a document.
#[derive(Debug, Clone, Copy, PartialEq, Eq, Structural)]
pub struct Slot {
    /// The slot number as a plain integer.
    pub raw: u32,
}

impl Slot {
    /// Wrap a plain integer slot number.
    pub fn new(raw: u32) -> (r: Slot)
        ensures
            r.raw == raw,
    {
        Slot { raw }
    }
}

} // verus!
