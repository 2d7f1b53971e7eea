//! Range processors: turning the two ends of a range filter into encoded
//! value bounds, and the wrapper that hosts one behind the engine's
//! range-processing interface.
//!
//! A range processor receives the raw text of a range's two ends and
//! produces, for each end, the encoded byte string to compare stored slot
//! values against — or declines an end it cannot interpret. The number
//! processor reads decimal integers in the codec's exact range (fractional
//! bounds are the application rim's to encode, since floating-point text
//! reading cannot stand in the verified core); the date and datetime
//! processors read calendar dates (through the date library) and encode
//! them as days, respectively seconds, since the epoch; the string
//! processor passes text through as raw bytes, relying on the codec's
//! identity mapping for strings.

use vstd::arithmetic::div_mod::lemma_fundamental_div_mod;
use vstd::prelude::*;
use vstd::string::StringSliceAdditionalSpecFns;
use vstd::slice::{slice_subrange, slice_to_vec};
use vstd::utf8::valid_utf8;

use crate::query::{QView, Query};
use crate::strings::text_from_engine;
use crate::value::{
    bytes_eq, bytes_starts_with, encoded, from_int, int_bits, is_prefix_of, is_suffix_of,
    sortable_serialise, EXACT_INT_LIMIT,
};
use crate::Slot;

verus! {

/// Whether every byte of `s` is a decimal digit (and there is at least
/// one).
pub open spec fn is_dec_digits(s: Seq<u8>) -> bool {
    s.len() > 0 && forall|j: int| 0 <= j < s.len() ==> 48 <= #[trigger] s[j] <= 57
}

/// The integer a digit string denotes.
pub open spec fn dec_value(s: Seq<u8>) -> int
    decreases s.len(),
{
    if s.len() == 0 {
        0
    } else {
        dec_value(s.drop_last()) * 10 + (s.last() - 48)
    }
}

/// What a decimal integer string denotes: an optional leading minus sign,
/// then digits; anything else denotes nothing.
pub open spec fn parse_int_spec(s: Seq<u8>) -> Option<int> {
    if s.len() >= 2 && s[0] == 45 && is_dec_digits(s.skip(1)) {
        Some(-dec_value(s.skip(1)))
    } else if is_dec_digits(s) {
        Some(dec_value(s))
    } else {
        None
    }
}

/// Digit strings denote non-negative integers.
proof fn lemma_dec_value_nonneg(s: Seq<u8>)
    requires
        forall|j: int| 0 <= j < s.len() ==> 48 <= #[trigger] s[j] <= 57,
    ensures
        dec_value(s) >= 0,
    decreases s.len(),
{
    if s.len() > 0 {
        lemma_dec_value_nonneg(s.drop_last());
    }
}

/// A digit string denotes at least what any of its prefixes denotes.
proof fn lemma_dec_value_monotone(s: Seq<u8>, i: int)
    requires
        forall|j: int| 0 <= j < s.len() ==> 48 <= #[trigger] s[j] <= 57,
        0 <= i <= s.len(),
    ensures
        dec_value(s.take(i)) <= dec_value(s),
    decreases s.len() - i,
{
    if i < s.len() {
        lemma_dec_value_monotone(s, i + 1);
        assert(s.take(i + 1).drop_last() =~= s.take(i));
        assert(s.take(i + 1).last() == s[i]);
        lemma_dec_value_nonneg(s.take(i));
    } else {
        assert(s.take(i) =~= s);
    }
}

/// Parse a decimal integer in the codec's exact range.
///
/// Succeeds exactly on integer strings whose value the codec represents
/// exactly; a malformed string, or a value outside the exact range, yields
/// nothing.
pub fn parse_number(s: &[u8]) -> (r: Option<i64>)
    ensures
        r matches Some(v) ==> parse_int_spec(s@) == Some(v as int) && -EXACT_INT_LIMIT <= v
            <= EXACT_INT_LIMIT,
        r is None ==> match parse_int_spec(s@) {
            Some(x) => x < -EXACT_INT_LIMIT || x > EXACT_INT_LIMIT,
            None => true,
        },
{
    let (neg, from): (bool, usize) = if s.len() >= 2 && s[0] == 45 {
        (true, 1)
    } else {
        (false, 0)
    };
    let ghost digits = s@.skip(from as int);
    proof {
        if from == 0 {
            assert(digits =~= s@);
        }
    }
    if s.len() == from {
        proof {
            assert(!is_dec_digits(s@)) by {
                if is_dec_digits(s@) {
                    assert(48 <= s@[0] <= 57);
                }
            }
            assert(parse_int_spec(s@) is None);
        }
        return None;
    }
    let n = s.len();
    let mut acc: u64 = 0;
    let mut i: usize = from;
    while i < n
        invariant
            from <= i <= n,
            n == s@.len(),
            from < n,
            from == 0 || (from == 1 && n >= 2 && s@[0] == 45),
            from == 0 ==> !(n >= 2 && s@[0] == 45),
            digits == s@.skip(from as int),
            forall|j: int| from <= j < i ==> 48 <= #[trigger] s@[j] <= 57,
            acc as int == dec_value(digits.take(i - from as int)),
            acc <= 0x20_0000_0000_0000u64,
        decreases n - i,
    {
        let b = s[i];
        if b < 48 || b > 57 {
            proof {
                if from == 1 {
                    assert(s@.skip(1)[i - 1] == s@[i as int]);
                    assert(!is_dec_digits(s@.skip(1)));
                    assert(!is_dec_digits(s@)) by {
                        if is_dec_digits(s@) {
                            assert(48 <= s@[0] <= 57);
                        }
                    }
                } else {
                    assert(!is_dec_digits(s@)) by {
                        if is_dec_digits(s@) {
                            assert(48 <= s@[i as int] <= 57);
                        }
                    }
                }
                assert(parse_int_spec(s@) is None);
            }
            return None;
        }
        proof {
            assert(digits.take(i + 1 - from as int).drop_last() =~= digits.take(i - from as int));
            assert(digits.take(i + 1 - from as int).last() == s@[i as int]);
        }
        let next = acc * 10 + ((b - 48) as u64);
        if next > 0x20_0000_0000_0000u64 {
            proof {
                assert(next as int == dec_value(digits.take(i + 1 - from as int)));
                let v = parse_int_spec(s@);
                if from == 1 {
                    assert(s@[0] == 45);
                    assert(!is_dec_digits(s@)) by {
                        if is_dec_digits(s@) {
                            assert(48 <= s@[0] <= 57);
                        }
                    }
                    if v is Some {
                        assert(is_dec_digits(s@.skip(1)));
                        lemma_dec_value_monotone(digits, i + 1 - from as int);
                        assert(dec_value(digits) >= next as int);
                        assert(v->Some_0 == -dec_value(digits));
                    }
                } else {
                    assert(digits =~= s@);
                    if v is Some {
                        assert(is_dec_digits(s@));
                        lemma_dec_value_monotone(digits, i + 1 - from as int);
                        assert(dec_value(digits) >= next as int);
                        assert(v->Some_0 == dec_value(digits));
                    }
                }
            }
            return None;
        }
        acc = next;
        i += 1;
    }
    proof {
        assert(digits.take(n - from as int) =~= digits);
        assert(is_dec_digits(digits));
        if from == 1 {
            assert(parse_int_spec(s@) == Some(-dec_value(digits)));
        } else {
            assert(parse_int_spec(s@) == Some(dec_value(digits)));
        }
        lemma_dec_value_nonneg(digits);
    }
    if neg {
        Some(-(acc as i64))
    } else {
        Some(acc as i64)
    }
}

/// Days between the civil date `y-m-d` and the epoch date 1970-01-01,
/// negative for earlier dates.
///
/// Standard era arithmetic over the proleptic Gregorian calendar: years
/// are grouped in 400-year eras of 146097 days each, with the year shifted
/// so that it starts in March (putting the leap day last); a constant
/// offset keeps every intermediate quantity non-negative over the date
/// library's year range.
pub open spec fn days_from_civil(y: int, m: int, d: int) -> int
    recommends
        1 <= m <= 12,
        1 <= d <= 31,
        -400000 <= y <= 400000,
{
    let ys = y + 400000 + (if m <= 2 {
        -1int
    } else {
        0int
    });
    let era = ys / 400;
    let yoe = ys - era * 400;
    let mp = if m > 2 {
        m - 3
    } else {
        m + 9
    };
    let doy = (153 * mp + 2) / 5 + d - 1;
    let doe = yoe * 365 + yoe / 4 - yoe / 100 + doy;
    era * 146097 + doe - 719468 - 146097000
}

/// Seconds between the civil instant `y-m-d h:mi:sec` and the epoch.
pub open spec fn civil_seconds(y: int, m: int, d: int, h: int, mi: int, sec: int) -> int {
    days_from_civil(y, m, d) * 86400 + h * 3600 + mi * 60 + sec
}

/// Days between a civil date and the epoch, computed exactly.
pub fn days_from_civil_exec(y: i32, m: u8, d: u8) -> (r: i64)
    requires
        1 <= m <= 12,
        1 <= d <= 31,
        -262144 <= y <= 262143,
    ensures
        r == days_from_civil(y as int, m as int, d as int),
        -150_000_000 <= r <= 150_000_000,
{
    let adj: i64 = if m <= 2 {
        1
    } else {
        0
    };
    let ys: u64 = ((y as i64) + 400000 - adj) as u64;
    let era: u64 = ys / 400;
    let yoe: u64 = ys - era * 400;
    proof {
        lemma_fundamental_div_mod(ys as int, 400);
        assert(era <= 2001);
        assert(yoe < 400);
    }
    let mp: u64 = if m > 2 {
        (m - 3) as u64
    } else {
        (m + 9) as u64
    };
    let doy: u64 = (153 * mp + 2) / 5 + (d as u64) - 1;
    proof {
        lemma_fundamental_div_mod((153 * mp + 2) as int, 5);
        assert(doy <= 367);
    }
    let doe: u64 = yoe * 365 + yoe / 4 - yoe / 100;
    proof {
        lemma_fundamental_div_mod(yoe as int, 4);
        lemma_fundamental_div_mod(yoe as int, 100);
        assert(yoe / 4 >= yoe / 100) by {
            assert(yoe as int / 4 >= yoe as int / 100) by {
                lemma_fundamental_div_mod(yoe as int, 4);
                lemma_fundamental_div_mod(yoe as int, 100);
            }
        }
        assert(doe <= 399 * 365 + 99);
    }
    let total: u64 = era * 146097 + doe + doy;
    let r: i64 = (total as i64) - 719468 - 146097000;
    proof {
        assert(total <= 2001 * 146097 + 399 * 365 + 99 + 367);
        assert(r == days_from_civil(y as int, m as int, d as int));
    }
    r
}

/// The date (year, month, day) a text denotes, as the date library reads
/// it.
pub uninterp spec fn date_parse_of(s: Seq<u8>) -> Option<(i32, u8, u8)>;

/// Relies on `chrono::NaiveDate`'s string parsing (`FromStr`, ISO
/// `year-month-day`) and its calendar accessors: the result depends on the
/// text alone, a parsed date is a valid calendar date, and the library's
/// years lie within its documented range.
#[verifier::external_body]
fn parse_date(s: &str) -> (r: Option<(i32, u8, u8)>)
    ensures
        r == date_parse_of(s.spec_bytes()),
        r matches Some(p) ==> 1 <= p.1 <= 12 && 1 <= p.2 <= 31 && -262144 <= p.0 <= 262143,
{
    match s.parse::<chrono::NaiveDate>() {
        Ok(date) => Some(
            (
                chrono::Datelike::year(&date),
                chrono::Datelike::month(&date) as u8,
                chrono::Datelike::day(&date) as u8,
            ),
        ),
        Err(_) => None,
    }
}

/// The instant (year, month, day, hour, minute, second) a text denotes,
/// as the date library reads it.
pub uninterp spec fn datetime_parse_of(s: Seq<u8>) -> Option<(i32, u8, u8, u8, u8, u8)>;

/// Relies on `chrono::NaiveDateTime`'s string parsing (`FromStr`, ISO
/// date and time) and its calendar and clock accessors: the result depends
/// on the text alone, and a parsed instant carries a valid calendar date
/// and a valid time of day.
#[verifier::external_body]
fn parse_datetime(s: &str) -> (r: Option<(i32, u8, u8, u8, u8, u8)>)
    ensures
        r == datetime_parse_of(s.spec_bytes()),
        r matches Some(p) ==> 1 <= p.1 <= 12 && 1 <= p.2 <= 31 && -262144 <= p.0 <= 262143 && p.3
            <= 23 && p.4 <= 59 && p.5 <= 59,
{
    match s.parse::<chrono::NaiveDateTime>() {
        Ok(dt) => Some(
            (
                chrono::Datelike::year(&dt),
                chrono::Datelike::month(&dt) as u8,
                chrono::Datelike::day(&dt) as u8,
                chrono::Timelike::hour(&dt) as u8,
                chrono::Timelike::minute(&dt) as u8,
                chrono::Timelike::second(&dt) as u8,
            ),
        ),
        Err(_) => None,
    }
}

/// The view of an optional byte vector.
pub open spec fn opt_bytes(o: Option<Vec<u8>>) -> Option<Seq<u8>> {
    match o {
        Some(v) => Some(v@),
        None => None,
    }
}

/// A range processor: turns the raw text of each range end into the
/// encoded value bound to filter with, or declines an end it cannot
/// interpret.
pub trait RangeProcessor {
    /// What the processor produces for the two ends.
    spec fn range_spec(&self, start: Seq<u8>, end: Seq<u8>) -> (Option<Seq<u8>>, Option<Seq<u8>>);

    /// Produce the encoded bounds for the two ends.
    fn process_range(&self, start: &[u8], end: &[u8]) -> (r: (Option<Vec<u8>>, Option<Vec<u8>>))
        ensures
            (opt_bytes(r.0), opt_bytes(r.1)) == self.range_spec(start@, end@),
    ;
}

/// What the number processor encodes a range end as: the sortable encoding
/// of the decimal integer it denotes, when that integer is in the codec's
/// exact range.
pub open spec fn number_encoding(s: Seq<u8>) -> Option<Seq<u8>> {
    match parse_int_spec(s) {
        Some(x) => if -EXACT_INT_LIMIT <= x <= EXACT_INT_LIMIT {
            Some(encoded(int_bits(x)))
        } else {
            None
        },
        None => None,
    }
}

/// Handles a numeric range whose ends are decimal integers, encoded
/// through the sortable value codec.
///
/// The verified core holds no floating-point text reading, so this
/// processor's domain is the codec's exactly-represented integers; a
/// fractional bound is produced at the application rim (which parses
/// numbers freely and encodes them through the same codec) and handed to
/// the value-query constructors directly.
pub struct NumberRangeProcessor;

impl RangeProcessor for NumberRangeProcessor {
    open spec fn range_spec(&self, start: Seq<u8>, end: Seq<u8>) -> (
        Option<Seq<u8>>,
        Option<Seq<u8>>,
    ) {
        (number_encoding(start), number_encoding(end))
    }

    fn process_range(&self, start: &[u8], end: &[u8]) -> (r: (Option<Vec<u8>>, Option<Vec<u8>>))
        ensures
            (opt_bytes(r.0), opt_bytes(r.1)) == self.range_spec(start@, end@),
    {
        (number_bound(start), number_bound(end))
    }
}

/// The encoded bound a decimal-integer range end denotes.
fn number_bound(s: &[u8]) -> (r: Option<Vec<u8>>)
    ensures
        opt_bytes(r) == number_encoding(s@),
{
    match parse_number(s) {
        Some(v) => Some(sortable_serialise(from_int(v))),
        None => None,
    }
}

/// What the date processor encodes a range end as: days since the epoch,
/// encoded through the sortable value codec.
pub open spec fn date_encoding(s: Seq<u8>) -> Option<Seq<u8>> {
    if valid_utf8(s) {
        match date_parse_of(s) {
            Some(p) => Some(
                encoded(int_bits(days_from_civil(p.0 as int, p.1 as int, p.2 as int))),
            ),
            None => None,
        }
    } else {
        None
    }
}

/// Handles a range of dates: each end is a calendar date, encoded as its
/// day number relative to the epoch.
pub struct DateRangeProcessor;

impl RangeProcessor for DateRangeProcessor {
    open spec fn range_spec(&self, start: Seq<u8>, end: Seq<u8>) -> (
        Option<Seq<u8>>,
        Option<Seq<u8>>,
    ) {
        (date_encoding(start), date_encoding(end))
    }

    fn process_range(&self, start: &[u8], end: &[u8]) -> (r: (Option<Vec<u8>>, Option<Vec<u8>>))
        ensures
            (opt_bytes(r.0), opt_bytes(r.1)) == self.range_spec(start@, end@),
    {
        (date_bound(start), date_bound(end))
    }
}

/// The encoded bound a date range end denotes.
fn date_bound(s: &[u8]) -> (r: Option<Vec<u8>>)
    ensures
        opt_bytes(r) == date_encoding(s@),
{
    let text = match text_from_engine(s) {
        Ok(t) => t,
        Err(_) => {
            return None;
        },
    };
    match parse_date(text) {
        Some((y, m, d)) => {
            let days = days_from_civil_exec(y, m, d);
            Some(sortable_serialise(from_int(days)))
        },
        None => None,
    }
}

/// What the datetime processor encodes a range end as: seconds since the
/// epoch, encoded through the sortable value codec.
pub open spec fn datetime_encoding(s: Seq<u8>) -> Option<Seq<u8>> {
    if valid_utf8(s) {
        match datetime_parse_of(s) {
            Some(p) => Some(
                encoded(
                    int_bits(
                        civil_seconds(
                            p.0 as int,
                            p.1 as int,
                            p.2 as int,
                            p.3 as int,
                            p.4 as int,
                            p.5 as int,
                        ),
                    ),
                ),
            ),
            None => None,
        }
    } else {
        None
    }
}

/// Handles a range of timestamps: each end is a calendar date with a time
/// of day, encoded as seconds relative to the epoch.
pub struct DateTimeRangeProcessor;

impl RangeProcessor for DateTimeRangeProcessor {
    open spec fn range_spec(&self, start: Seq<u8>, end: Seq<u8>) -> (
        Option<Seq<u8>>,
        Option<Seq<u8>>,
    ) {
        (datetime_encoding(start), datetime_encoding(end))
    }

    fn process_range(&self, start: &[u8], end: &[u8]) -> (r: (Option<Vec<u8>>, Option<Vec<u8>>))
        ensures
            (opt_bytes(r.0), opt_bytes(r.1)) == self.range_spec(start@, end@),
    {
        (datetime_bound(start), datetime_bound(end))
    }
}

/// The encoded bound a datetime range end denotes.
fn datetime_bound(s: &[u8]) -> (r: Option<Vec<u8>>)
    ensures
        opt_bytes(r) == datetime_encoding(s@),
{
    let text = match text_from_engine(s) {
        Ok(t) => t,
        Err(_) => {
            return None;
        },
    };
    match parse_datetime(text) {
        Some((y, m, d, h, mi, sec)) => {
            let days = days_from_civil_exec(y, m, d);
            let secs: i64 = days * 86400 + (h as i64) * 3600 + (mi as i64) * 60 + (sec as i64);
            Some(sortable_serialise(from_int(secs)))
        },
        None => None,
    }
}

/// Handles a string range: each end passes through as raw bytes (the
/// codec's identity mapping for strings), with an empty end meaning
/// unbounded.
pub struct StringRangeProcessor;

impl RangeProcessor for StringRangeProcessor {
    open spec fn range_spec(&self, start: Seq<u8>, end: Seq<u8>) -> (
        Option<Seq<u8>>,
        Option<Seq<u8>>,
    ) {
        (
            if start.len() > 0 {
                Some(start)
            } else {
                None
            },
            if end.len() > 0 {
                Some(end)
            } else {
                None
            },
        )
    }

    fn process_range(&self, start: &[u8], end: &[u8]) -> (r: (Option<Vec<u8>>, Option<Vec<u8>>))
        ensures
            (opt_bytes(r.0), opt_bytes(r.1)) == self.range_spec(start@, end@),
    {
        (
            if start.len() > 0 {
                Some(slice_to_vec(start))
            } else {
                None
            },
            if end.len() > 0 {
                Some(slice_to_vec(end))
            } else {
                None
            },
        )
    }
}

/// The wrapper hosting one range processor behind the engine's
/// range-processing interface: it owns the processor, the value slot the
/// range filters, and the marker text that selects this processor.
pub struct RangeProcessorWrapper<R: RangeProcessor> {
    slot: u32,
    marker: Vec<u8>,
    is_suffix: bool,
    can_repeat: bool,
    inner: R,
}

impl<R: RangeProcessor> RangeProcessorWrapper<R> {
    /// The value slot the range filters.
    pub closed spec fn slot_spec(&self) -> u32 {
        self.slot
    }

    /// The marker text that selects this processor.
    pub closed spec fn marker_spec(&self) -> Seq<u8> {
        self.marker@
    }

    /// Whether the marker is a suffix of a range end rather than a prefix.
    pub closed spec fn is_suffix_spec(&self) -> bool {
        self.is_suffix
    }

    /// Whether the marker may appear on both ends.
    pub closed spec fn can_repeat_spec(&self) -> bool {
        self.can_repeat
    }

    /// The hosted processor.
    pub closed spec fn inner_view(&self) -> R {
        self.inner
    }

    /// Host `range_processor` for value slot `slot`, selected by `marker`
    /// (a suffix of the range ends when `is_suffix`, else a prefix, and
    /// allowed on the second end too when `can_repeat`).
    pub fn new(
        slot: Slot,
        marker: &[u8],
        is_suffix: bool,
        can_repeat: bool,
        range_processor: R,
    ) -> (r: RangeProcessorWrapper<R>)
        ensures
            r.slot_spec() == slot.raw,
            r.marker_spec() == marker@,
            r.is_suffix_spec() == is_suffix,
            r.can_repeat_spec() == can_repeat,
            r.inner_view() == range_processor,
    {
        RangeProcessorWrapper {
            slot: slot.raw,
            marker: slice_to_vec(marker),
            is_suffix,
            can_repeat,
            inner: range_processor,
        }
    }

    /// Narrow the wrapper to the hosted processor's interface: the same
    /// object seen through its abstract role, never a copy.
    pub fn upcast(&self) -> (r: &R)
        ensures
            *r == self.inner_view(),
    {
        &self.inner
    }

    /// The range end with this wrapper's marker taken off, or the end as
    /// it is when the marker is absent and not required, or nothing when
    /// a required marker is missing.
    pub open spec fn strip_spec(&self, s: Seq<u8>, required: bool) -> Option<Seq<u8>> {
        if self.is_suffix_spec() {
            if is_suffix_of(self.marker_spec(), s) {
                Some(s.take(s.len() - self.marker_spec().len()))
            } else if required {
                None
            } else {
                Some(s)
            }
        } else {
            if is_prefix_of(self.marker_spec(), s) {
                Some(s.skip(self.marker_spec().len() as int))
            } else if required {
                None
            } else {
                Some(s)
            }
        }
    }

    /// The second range end, stripped: the marker may only appear on it
    /// when the wrapper allows repetition.
    pub open spec fn strip_end_spec(&self, s: Seq<u8>) -> Option<Seq<u8>> {
        if self.is_suffix_spec() {
            if is_suffix_of(self.marker_spec(), s) {
                if self.can_repeat_spec() {
                    Some(s.take(s.len() - self.marker_spec().len()))
                } else {
                    None
                }
            } else {
                Some(s)
            }
        } else {
            if is_prefix_of(self.marker_spec(), s) {
                if self.can_repeat_spec() {
                    Some(s.skip(self.marker_spec().len() as int))
                } else {
                    None
                }
            } else {
                Some(s)
            }
        }
    }

    /// What the trampoline produces for a range: the value-range query
    /// over the wrapper's slot when both ends make sense, a single-ended
    /// value query when exactly the empty end declines, and nothing
    /// otherwise.
    pub open spec fn apply_spec(&self, start: Seq<u8>, end: Seq<u8>) -> Option<QView> {
        match (self.strip_spec(start, true), self.strip_end_spec(end)) {
            (Some(s2), Some(e2)) => {
                let bounds = self.inner_view().range_spec(s2, e2);
                match (bounds.0, bounds.1) {
                    (Some(lo), Some(hi)) => Some(
                        QView::ValueRange { slot: self.slot_spec(), lower: lo, upper: hi },
                    ),
                    (Some(lo), None) => if e2.len() == 0 {
                        Some(QView::ValueGe { slot: self.slot_spec(), limit: lo })
                    } else {
                        None
                    },
                    (None, Some(hi)) => if s2.len() == 0 {
                        Some(QView::ValueLe { slot: self.slot_spec(), limit: hi })
                    } else {
                        None
                    },
                    (None, None) => None,
                }
            },
            _ => None,
        }
    }

    /// The trampoline the engine's range parsing lands on: check and strip
    /// the marker, hand the bare ends to the hosted processor, and build
    /// the value query its bounds call for.
    pub fn apply(&self, start: &[u8], end: &[u8]) -> (r: Option<Query>)
        ensures
            match r {
                Some(q) => self.apply_spec(start@, end@) == Some(q@),
                None => self.apply_spec(start@, end@) is None,
            },
    {
        let s2 = match self.strip(start, true) {
            Some(s) => s,
            None => {
                return None;
            },
        };
        let e2 = match self.strip_end(end) {
            Some(e) => e,
            None => {
                return None;
            },
        };
        let (lo, hi) = self.inner.process_range(s2, e2);
        match (lo, hi) {
            (Some(lo), Some(hi)) => Some(
                Query::value_range(Slot::new(self.slot), lo.as_slice(), hi.as_slice()),
            ),
            (Some(lo), None) => {
                if e2.len() == 0 {
                    Some(Query::value_ge(Slot::new(self.slot), lo.as_slice()))
                } else {
                    None
                }
            },
            (None, Some(hi)) => {
                if s2.len() == 0 {
                    Some(Query::value_le(Slot::new(self.slot), hi.as_slice()))
                } else {
                    None
                }
            },
            (None, None) => None,
        }
    }

    /// Take the marker off one range end (required or optional).
    fn strip<'a>(&self, s: &'a [u8], required: bool) -> (r: Option<&'a [u8]>)
        ensures
            match r {
                Some(out) => self.strip_spec(s@, required) == Some(out@),
                None => self.strip_spec(s@, required) is None,
            },
    {
        if self.is_suffix {
            if self.marker.len() <= s.len() {
                let tail = slice_subrange(s, s.len() - self.marker.len(), s.len());
                if bytes_eq(tail, self.marker.as_slice()) {
                    proof {
                        assert(is_suffix_of(self.marker_spec(), s@));
                    }
                    return Some(slice_subrange(s, 0, s.len() - self.marker.len()));
                }
            }
            proof {
                assert(!is_suffix_of(self.marker_spec(), s@));
            }
            if required {
                None
            } else {
                Some(s)
            }
        } else {
            if bytes_starts_with(s, self.marker.as_slice()) {
                return Some(slice_subrange(s, self.marker.len(), s.len()));
            }
            if required {
                None
            } else {
                Some(s)
            }
        }
    }

    /// Take the marker off the second range end, where it is only allowed
    /// when the wrapper repeats.
    fn strip_end<'a>(&self, s: &'a [u8]) -> (r: Option<&'a [u8]>)
        ensures
            match r {
                Some(out) => self.strip_end_spec(s@) == Some(out@),
                None => self.strip_end_spec(s@) is None,
            },
    {
        if self.is_suffix {
            if self.marker.len() <= s.len() {
                let tail = slice_subrange(s, s.len() - self.marker.len(), s.len());
                if bytes_eq(tail, self.marker.as_slice()) {
                    proof {
                        assert(is_suffix_of(self.marker_spec(), s@));
                    }
                    if self.can_repeat {
                        return Some(slice_subrange(s, 0, s.len() - self.marker.len()));
                    } else {
                        return None;
                    }
                }
            }
            proof {
                assert(!is_suffix_of(self.marker_spec(), s@));
            }
            Some(s)
        } else {
            if bytes_starts_with(s, self.marker.as_slice()) {
                if self.can_repeat {
                    return Some(slice_subrange(s, self.marker.len(), s.len()));
                } else {
                    return None;
                }
            }
            Some(s)
        }
    }
}

} // verus!
