use xapian_rs::range::{days_from_civil_exec, parse_number};
use xapian_rs::value::{from_int, sortable_serialise};
use xapian_rs::{
    DateRangeProcessor, DateTimeRangeProcessor, Document, Enquire, NumberRangeProcessor, Operator,
    Query, RangeProcessor, RangeProcessorWrapper, Slot, StringRangeProcessor, WritableDatabase,
};

#[test]
fn decimal_parsing_is_exact() {
    assert_eq!(parse_number(b"0"), Some(0));
    assert_eq!(parse_number(b"10"), Some(10));
    assert_eq!(parse_number(b"-42"), Some(-42));
    assert_eq!(parse_number(b"007"), Some(7));
    assert_eq!(parse_number(b""), None);
    assert_eq!(parse_number(b"-"), None);
    assert_eq!(parse_number(b"1.5"), None);
    assert_eq!(parse_number(b"ten"), None);
    assert_eq!(parse_number(b"9007199254740992"), Some(9007199254740992));
    // one past the codec's exact integer range
    assert_eq!(parse_number(b"9007199254740993"), None);
}

#[test]
fn number_processor_encodes_codec_bytes() {
    let (lo, hi) = NumberRangeProcessor.process_range(b"10", b"25");
    assert_eq!(lo, Some(sortable_serialise(from_int(10))));
    assert_eq!(hi, Some(sortable_serialise(25.0f64.to_bits())));
    let (bad, good) = NumberRangeProcessor.process_range(b"x", b"3");
    assert_eq!(bad, None);
    assert_eq!(good, Some(sortable_serialise(from_int(3))));
}

#[test]
fn string_processor_passes_bytes_through() {
    let (lo, hi) = StringRangeProcessor.process_range(b"alpha", b"omega");
    assert_eq!(lo, Some(b"alpha".to_vec()));
    assert_eq!(hi, Some(b"omega".to_vec()));
    let (open_lo, open_hi) = StringRangeProcessor.process_range(b"", b"omega");
    assert_eq!(open_lo, None);
    assert_eq!(open_hi, Some(b"omega".to_vec()));
}

#[test]
fn civil_day_arithmetic() {
    assert_eq!(days_from_civil_exec(1970, 1, 1), 0);
    assert_eq!(days_from_civil_exec(1970, 1, 2), 1);
    assert_eq!(days_from_civil_exec(1969, 12, 31), -1);
    assert_eq!(days_from_civil_exec(2000, 1, 15), 10971);
    assert_eq!(days_from_civil_exec(2000, 2, 29), 11016);
    assert_eq!(days_from_civil_exec(1900, 3, 1), -25508);
}

#[test]
fn date_processor_reads_calendar_dates() {
    let (lo, hi) = DateRangeProcessor.process_range(b"1970-01-01", b"2000-01-15");
    assert_eq!(lo, Some(sortable_serialise(from_int(0))));
    assert_eq!(hi, Some(sortable_serialise(from_int(10971))));
    let (bad, none) = DateRangeProcessor.process_range(b"2000-13-01", b"nonsense");
    assert_eq!(bad, None);
    assert_eq!(none, None);
    let (invalid, _) = DateRangeProcessor.process_range(&[0xff, 0xfe], b"");
    assert_eq!(invalid, None);
}

#[test]
fn datetime_processor_reads_instants() {
    let (lo, hi) =
        DateTimeRangeProcessor.process_range(b"1970-01-01T00:00:00", b"1970-01-02T01:02:03");
    assert_eq!(lo, Some(sortable_serialise(from_int(0))));
    assert_eq!(hi, Some(sortable_serialise(from_int(86400 + 3600 + 123))));
}

#[test]
fn wrapper_strips_markers_and_builds_value_queries() {
    let wrapper =
        RangeProcessorWrapper::new(Slot::new(1), b"year:", false, false, NumberRangeProcessor);

    let q = wrapper.apply(b"year:1900", b"2000").unwrap();
    assert_eq!(q.operator(), Operator::ValueRange);

    // the marker is required on the first end
    assert!(wrapper.apply(b"1900", b"2000").is_none());
    // and without repetition it may not appear on the second
    assert!(wrapper.apply(b"year:1900", b"year:2000").is_none());

    let repeating =
        RangeProcessorWrapper::new(Slot::new(1), b"year:", false, true, NumberRangeProcessor);
    assert!(repeating.apply(b"year:1900", b"year:2000").is_some());

    // an empty second end makes the range single-ended
    let open = wrapper.apply(b"year:1900", b"").unwrap();
    assert_eq!(open.operator(), Operator::ValueGe);

    let suffix = RangeProcessorWrapper::new(Slot::new(0), b"mm", true, true, NumberRangeProcessor);
    let q2 = suffix.apply(b"10mm", b"25mm").unwrap();
    assert_eq!(q2.operator(), Operator::ValueRange);
    assert!(suffix.upcast().process_range(b"10", b"25").0.is_some());
}

#[test]
fn search_range_end_to_end_through_a_wrapper() {
    let mut db = WritableDatabase::inmemory();
    for (term, year) in [(&b"clock"[..], 1950i64), (b"clock", 2020), (b"vase", 1960)] {
        let mut doc = Document::new();
        doc.add_term(term, None);
        doc.set_value(Slot::new(1), &sortable_serialise(from_int(year)));
        db.add_document(&doc).unwrap();
    }
    let wrapper =
        RangeProcessorWrapper::new(Slot::new(1), b"year:", false, false, NumberRangeProcessor);
    let range = wrapper.apply(b"year:1900", b"2000").unwrap();
    let query = Query::combine(Operator::And, &Query::term(b"clock", None, None), &range);
    let mut enquire = Enquire::new(db.upcast());
    enquire.set_query(&query, None);
    let mset = enquire.mset(0, 10);
    assert_eq!(mset.size(), 1);
    let mut it = mset.matches();
    assert_eq!(it.next().unwrap().docid().get_raw(), 1);
}
