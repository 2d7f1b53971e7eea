use xapian_rs::value::{from_int, sortable_serialise, sortable_unserialise};
use xapian_rs::{
    Database, DbAction, DbBackend, DbFlags, DocId, Document, Enquire, KeepAll,
    PrefixExpandDecider, Query, RSet, Slot, ValueCountMatchSpy, ValueRejectDecider,
    WritableDatabase,
};

#[test]
fn open_refuses_disk_backends() {
    assert!(WritableDatabase::open("some/path", None, None, None, None).is_err());
    assert!(WritableDatabase::open("x", Some(DbAction::Create), Some(DbBackend::Glass), None, None)
        .is_err());
    assert!(Database::open("x", Some(DbBackend::Chert)).is_err());
    let db = WritableDatabase::open(
        "",
        Some(DbAction::CreateOrOpen),
        Some(DbBackend::InMemory),
        Some(DbFlags::no_sync().union(DbFlags::retry_lock())),
        None,
    );
    assert!(db.is_ok());
}

#[test]
fn documents_round_trip_through_the_store() {
    let mut db = WritableDatabase::inmemory();
    assert_eq!(db.doc_count(), 0);

    let mut doc = Document::new();
    doc.set_data(b"payload");
    doc.add_term(b"alpha", None);
    doc.add_term(b"alpha", None);
    doc.add_boolean_term(b"Qid1");
    doc.set_value(Slot::new(0), b"hello");
    let id = db.add_document(&doc).unwrap();
    assert_eq!(id.get_raw(), 1);
    assert_eq!(db.doc_count(), 1);

    let stored = db.upcast().document(id).unwrap();
    assert_eq!(stored.data(), b"payload".to_vec());
    assert!(stored.has_term(b"alpha"));
    assert!(stored.has_term(b"Qid1"));
    assert!(!stored.has_term(b"beta"));
    assert_eq!(stored.value(Slot::new(0)), Some(b"hello".to_vec()));
    assert_eq!(stored.value(Slot::new(1)), None);
}

#[test]
fn upcast_reads_agree_with_the_writable_handle() {
    // a read through the upcast base equals the native read
    let mut db = WritableDatabase::inmemory();
    let mut doc = Document::new();
    doc.add_term(b"zebra", None);
    db.add_document(&doc).unwrap();
    db.set_metadata(b"note", b"kept");

    let base: &Database = db.upcast();
    assert_eq!(base.doc_count(), db.doc_count());
    assert_eq!(base.metadata(b"note"), db.metadata(b"note"));
    assert!(base.term_exists(b"zebra"));
    assert_eq!(base.metadata(b"absent"), Vec::<u8>::new());
}

#[test]
fn metadata_is_a_key_value_store() {
    let mut db = WritableDatabase::inmemory();
    assert_eq!(db.metadata(b"k"), Vec::<u8>::new());
    db.set_metadata(b"k", b"v1");
    db.set_metadata(b"other", b"x");
    assert_eq!(db.metadata(b"k"), b"v1".to_vec());
    db.set_metadata(b"k", b"v2");
    assert_eq!(db.metadata(b"k"), b"v2".to_vec());
    assert_eq!(db.metadata(b"other"), b"x".to_vec());
}

#[test]
fn transactions_roll_back_and_commit() {
    let mut db = WritableDatabase::inmemory();
    let mut doc = Document::new();
    doc.add_term(b"kept", None);
    db.add_document(&doc).unwrap();

    db.begin_transaction(None);
    let mut doc2 = Document::new();
    doc2.add_term(b"doomed", None);
    db.add_document(&doc2).unwrap();
    assert_eq!(db.doc_count(), 2);
    db.cancel_transaction();
    assert_eq!(db.doc_count(), 1);
    assert!(!db.upcast().term_exists(b"doomed"));

    db.begin_transaction(Some(false));
    let mut doc3 = Document::new();
    doc3.add_term(b"stays", None);
    db.add_document(&doc3).unwrap();
    db.commit_transaction();
    assert_eq!(db.doc_count(), 2);
    assert!(db.upcast().term_exists(b"stays"));
}

#[test]
fn replace_and_delete_documents() {
    let mut db = WritableDatabase::inmemory();
    let mut a = Document::new();
    a.add_term(b"old", None);
    let ida = db.add_document(&a).unwrap();
    let mut b = Document::new();
    b.add_term(b"two", None);
    db.add_document(&b).unwrap();

    let mut a2 = Document::new();
    a2.add_term(b"new", None);
    db.replace_document(ida, &a2);
    assert_eq!(db.doc_count(), 2);
    assert!(!db.upcast().term_exists(b"old"));
    assert!(db.upcast().term_exists(b"new"));

    db.delete_document(ida);
    assert_eq!(db.doc_count(), 1);
    assert!(!db.upcast().term_exists(b"new"));

    let wide_id = DocId::new(40).unwrap();
    let mut c = Document::new();
    c.add_term(b"late", None);
    db.replace_document(wide_id, &c);
    assert_eq!(db.doc_count(), 2);
    // the next plain add continues above the replaced identifier
    let next = db.add_document(&Document::new()).unwrap();
    assert_eq!(next.get_raw(), 41);

    db.delete_document_by_term(b"late");
    assert_eq!(db.doc_count(), 2);
}

#[test]
fn close_downgrades_writes_to_noops() {
    let mut db = WritableDatabase::inmemory();
    db.add_document(&Document::new()).unwrap();
    db.close();
    assert!(db.add_document(&Document::new()).is_none());
    db.set_metadata(b"k", b"v");
    assert_eq!(db.metadata(b"k"), Vec::<u8>::new());
    assert_eq!(db.doc_count(), 1);
}

#[test]
fn read_only_snapshot_is_independent() {
    let mut db = WritableDatabase::inmemory();
    let mut doc = Document::new();
    doc.add_term(b"before", None);
    db.add_document(&doc).unwrap();
    let snap = db.read_only();
    let copy = snap.clone();
    let mut doc2 = Document::new();
    doc2.add_term(b"after", None);
    db.add_document(&doc2).unwrap();
    assert_eq!(snap.doc_count(), 1);
    assert_eq!(copy.doc_count(), 1);
    assert!(!snap.term_exists(b"after"));
    assert_eq!(db.doc_count(), 2);
}

#[test]
fn value_range_search_finds_the_middle_document() {
    // three documents with slot-0 values 10.0, 20.0, 30.0; a range
    // query [15.0, 25.0] matches exactly the one holding 20.0.
    let mut db = WritableDatabase::inmemory();
    for v in [10.0f64, 20.0, 30.0] {
        let mut doc = Document::new();
        doc.set_value(Slot::new(0), &sortable_serialise(v.to_bits()));
        db.add_document(&doc).unwrap();
    }
    db.commit();

    let lo = sortable_serialise(15.0f64.to_bits());
    let hi = sortable_serialise(25.0f64.to_bits());
    let query = Query::value_range(Slot::new(0), &lo, &hi);

    let mut enquire = Enquire::new(db.upcast());
    enquire.set_query(&query, None);
    let mset = enquire.mset(0, 10);
    assert_eq!(mset.size(), 1);

    let mut matches = mset.matches();
    let m = matches.next().unwrap();
    let stored = m.document().value(Slot::new(0)).unwrap();
    assert_eq!(sortable_unserialise(&stored), Ok(20.0f64.to_bits()));
    assert_eq!(m.docid().get_raw(), 2);
    assert_eq!(m.percent(), 100);
}

#[test]
fn match_filter_drops_sentinel_documents() {
    // five documents, two carrying the sentinel in slot 1; the filter
    // leaves exactly the three others.
    let sentinel = b"forbidden";
    let mut db = WritableDatabase::inmemory();
    for i in 0..5u32 {
        let mut doc = Document::new();
        doc.add_term(b"common", None);
        if i == 1 || i == 3 {
            doc.set_value(Slot::new(1), sentinel);
        } else {
            doc.set_value(Slot::new(1), b"fine");
        }
        db.add_document(&doc).unwrap();
    }

    let mut enquire = Enquire::new(db.upcast());
    enquire.set_query(&Query::term(b"common", None, None), None);
    let decider = ValueRejectDecider::new(Slot::new(1), sentinel);
    let mset = enquire.mset_with_decider(0, 10, &decider);
    assert_eq!(mset.size(), 3);
    let mut matches = mset.matches();
    while let Some(m) = matches.next() {
        let v = m.document().value(Slot::new(1)).unwrap();
        assert_ne!(v, sentinel.to_vec());
    }
}

#[test]
fn match_observer_counts_distinct_values() {
    // across four matches with slot-0 values a, a, b, c the observer
    // accumulates a:2, b:1, c:1.
    let mut db = WritableDatabase::inmemory();
    for v in [&b"a"[..], b"a", b"b", b"c"] {
        let mut doc = Document::new();
        doc.add_term(b"common", None);
        doc.set_value(Slot::new(0), v);
        db.add_document(&doc).unwrap();
    }

    let mut enquire = Enquire::new(db.upcast());
    enquire.set_query(&Query::term(b"common", None, None), None);
    let mut spy = ValueCountMatchSpy::new(Slot::new(0));
    let mset = enquire.mset_observed(0, 10, &mut spy);
    assert_eq!(mset.size(), 4);
    assert_eq!(spy.count_of(b"a"), 2);
    assert_eq!(spy.count_of(b"b"), 1);
    assert_eq!(spy.count_of(b"c"), 1);
    assert_eq!(spy.count_of(b"d"), 0);
    assert_eq!(spy.distinct_values(), 3);
}

#[test]
fn paging_and_ranks() {
    let mut db = WritableDatabase::inmemory();
    for _ in 0..5 {
        let mut doc = Document::new();
        doc.add_term(b"t", None);
        db.add_document(&doc).unwrap();
    }
    let mut enquire = Enquire::new(db.upcast());
    enquire.set_query(&Query::term(b"t", None, None), None);
    let page = enquire.mset(2, 2);
    assert_eq!(page.size(), 2);
    let mut it = page.matches();
    let first = it.next().unwrap();
    assert_eq!(first.rank(), 2);
    assert_eq!(first.docid().get_raw(), 3);
    let second = it.next().unwrap();
    assert_eq!(second.rank(), 3);
    assert_eq!(second.docid().get_raw(), 4);
    assert!(it.next().is_none());

    let empty = enquire.mset(9, 5);
    assert!(empty.empty());
}

#[test]
fn from_int_values_search_like_floats() {
    let mut db = WritableDatabase::inmemory();
    for v in [10i64, 20, 30] {
        let mut doc = Document::new();
        doc.set_value(Slot::new(0), &sortable_serialise(from_int(v)));
        db.add_document(&doc).unwrap();
    }
    let lo = sortable_serialise(15.0f64.to_bits());
    let hi = sortable_serialise(25.0f64.to_bits());
    let mut enquire = Enquire::new(db.upcast());
    enquire.set_query(&Query::value_range(Slot::new(0), &lo, &hi), None);
    assert_eq!(enquire.mset(0, 10).size(), 1);
}

#[test]
fn expansion_suggests_terms_from_relevant_documents() {
    let mut db = WritableDatabase::inmemory();
    let mut a = Document::new();
    a.add_term(b"Zapple", None);
    a.add_term(b"pie", None);
    let ida = db.add_document(&a).unwrap();
    let mut b = Document::new();
    b.add_term(b"Zberry", None);
    b.add_term(b"Zapple", None);
    let idb = db.add_document(&b).unwrap();
    let mut c = Document::new();
    c.add_term(b"Zcake", None);
    db.add_document(&c).unwrap();

    let mut rset = RSet::new();
    rset.add_document_by_id(ida);
    rset.add_document_by_id(idb);
    assert_eq!(rset.size(), 2);
    assert!(rset.contains_id(ida));

    let enquire = Enquire::new(db.upcast());
    let decider = PrefixExpandDecider::new(b"Z");
    let eset = enquire.eset(10, &rset, &decider);
    assert_eq!(eset.size(), 2);
    let mut terms = eset.terms();
    assert_eq!(terms.next().unwrap(), &b"Zapple".to_vec());
    assert_eq!(terms.next().unwrap(), &b"Zberry".to_vec());
    assert!(terms.next().is_none());

    let capped = enquire.eset(1, &rset, &decider);
    assert_eq!(capped.size(), 1);
}

#[test]
fn replace_by_term_takes_over_the_first_carrier() {
    let mut db = WritableDatabase::inmemory();
    for marker in [&b"Q:1"[..], b"Q:2", b"Q:1"] {
        let mut doc = Document::new();
        doc.add_boolean_term(marker);
        db.add_document(&doc).unwrap();
    }
    assert_eq!(db.doc_count(), 3);

    let mut fresh = Document::new();
    fresh.add_boolean_term(b"Q:1");
    fresh.add_term(b"updated", None);
    let id = db.replace_document_by_term(b"Q:1", &fresh).unwrap();
    // both carriers of Q:1 (identifiers 1 and 3) collapse into one document
    // stored under the lower identifier
    assert_eq!(id.get_raw(), 1);
    assert_eq!(db.doc_count(), 2);
    assert!(db.upcast().term_exists(b"updated"));

    // with no carrier the document is simply added
    let mut other = Document::new();
    other.add_boolean_term(b"Q:9");
    let added = db.replace_document_by_term(b"Q:9", &other).unwrap();
    assert_eq!(added.get_raw(), 4);
    assert_eq!(db.doc_count(), 3);
}

#[test]
fn transaction_wrapper_commits_the_closure_changes() {
    let mut db = WritableDatabase::inmemory();
    let mut doc = Document::new();
    doc.add_term(b"inside", None);
    db.transaction(None, move |mut inner: WritableDatabase| {
        inner.add_document(&doc);
        inner
    });
    assert_eq!(db.doc_count(), 1);
    assert!(db.upcast().term_exists(b"inside"));
    // a later cancel has no transaction left to roll back
    db.cancel_transaction();
    assert_eq!(db.doc_count(), 1);
}

#[test]
fn expansion_without_a_filter_keeps_every_term() {
    let mut db = WritableDatabase::inmemory();
    let mut a = Document::new();
    a.add_term(b"one", None);
    a.add_term(b"two", None);
    let ida = db.add_document(&a).unwrap();
    let mut rset = RSet::new();
    rset.add_document_by_id(ida);
    let enquire = Enquire::new(db.upcast());
    let eset = enquire.eset(10, &rset, &KeepAll);
    assert_eq!(eset.size(), 2);
}
