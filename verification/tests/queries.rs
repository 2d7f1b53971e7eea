use xapian_rs::{Document, Operator, Position, Query, Slot, WildcardCombiner, WildcardLimitBehavior};

#[test]
fn operator_codes_round_trip() {
    for op in [
        Operator::And,
        Operator::Or,
        Operator::AndNot,
        Operator::XOr,
        Operator::AndMaybe,
        Operator::Filter,
        Operator::Near,
        Operator::Phrase,
        Operator::ValueRange,
        Operator::ScaleWeight,
        Operator::EliteSet,
        Operator::ValueGe,
        Operator::ValueLe,
        Operator::Synonym,
        Operator::Max,
        Operator::Wildcard,
        Operator::Invalid,
        Operator::LeafTerm,
        Operator::LeafPostingSource,
        Operator::LeafMatchAll,
        Operator::LeafMatchNothing,
    ] {
        assert_eq!(Operator::from_code(op.code()), Some(op));
    }
    assert_eq!(Operator::And.code(), 0);
    assert_eq!(Operator::Wildcard.code(), 15);
    assert_eq!(Operator::Invalid.code(), 99);
    assert_eq!(Operator::LeafMatchNothing.code(), 103);
    assert_eq!(Operator::from_code(50), None);
    assert_eq!(Operator::from_code(104), None);
}

#[test]
fn query_constructors_report_their_operators() {
    assert_eq!(Query::match_all().operator(), Operator::LeafMatchAll);
    assert_eq!(Query::match_nothing().operator(), Operator::LeafMatchNothing);
    assert_eq!(Query::term(b"apple", None, None).operator(), Operator::LeafTerm);
    // the empty term is the engine's representation of match-all
    assert_eq!(Query::term(b"", None, None).operator(), Operator::LeafMatchAll);
    let a = Query::term(b"a", None, None);
    let b = Query::term(b"b", None, None);
    let both = Query::combine(Operator::And, &a, &b);
    assert_eq!(both.operator(), Operator::And);
    assert!(!both.is_invalid());
    assert_eq!(both.num_subqueries(), 2);
    assert_eq!(a.num_subqueries(), 0);
    assert!(both.subquery(0).is_some());
    assert!(both.subquery(2).is_none());
}

#[test]
fn query_terms_and_unique_terms() {
    let a = Query::term(b"x", None, None);
    let b = Query::term(b"y", None, None);
    let c = Query::term(b"x", None, None);
    let left = Query::combine(Operator::Or, &a, &b);
    let q = Query::combine(Operator::Or, &left, &c);
    let terms = q.terms();
    assert_eq!(terms, vec![b"x".to_vec(), b"y".to_vec(), b"x".to_vec()]);
    let unique = q.unique_terms();
    assert_eq!(unique, vec![b"x".to_vec(), b"y".to_vec()]);
}

#[test]
fn boolean_matching_semantics() {
    let mut doc = Document::new();
    doc.add_term(b"apple", None);
    doc.add_term(b"pie", None);

    let apple = Query::term(b"apple", None, None);
    let pie = Query::term(b"pie", None, None);
    let cake = Query::term(b"cake", None, None);

    assert!(apple.matches(&doc));
    assert!(!cake.matches(&doc));
    assert!(Query::combine(Operator::And, &apple, &pie).matches(&doc));
    assert!(!Query::combine(Operator::And, &apple, &cake).matches(&doc));
    assert!(Query::combine(Operator::Or, &apple, &cake).matches(&doc));
    assert!(Query::combine(Operator::AndNot, &apple, &cake).matches(&doc));
    assert!(!Query::combine(Operator::AndNot, &apple, &pie).matches(&doc));
    assert!(Query::combine(Operator::XOr, &apple, &cake).matches(&doc));
    assert!(!Query::combine(Operator::XOr, &apple, &pie).matches(&doc));
    assert!(Query::match_all().matches(&doc));
    assert!(!Query::match_nothing().matches(&doc));

    let wild = Query::wildcard(b"app", None, None, None);
    assert!(wild.matches(&doc));
    let wild2 = Query::wildcard(b"apx", None, None, None);
    assert!(!wild2.matches(&doc));
    assert_eq!(
        Query::wildcard(b"a", Some(3), Some(WildcardLimitBehavior::FirstN), Some(WildcardCombiner::Or))
            .operator(),
        Operator::Wildcard
    );
}

#[test]
fn value_queries_respect_empty_slots() {
    let lo = b"b".to_vec();
    let hi = b"d".to_vec();
    let range = Query::value_range(Slot::new(0), &lo, &hi);
    let ge = Query::value_ge(Slot::new(0), &lo);
    let le = Query::value_le(Slot::new(0), &hi);

    let mut inside = Document::new();
    inside.set_value(Slot::new(0), b"c");
    let mut below = Document::new();
    below.set_value(Slot::new(0), b"a");
    let empty = Document::new();

    assert!(range.matches(&inside));
    assert!(!range.matches(&below));
    assert!(!range.matches(&empty));
    assert!(ge.matches(&inside));
    assert!(!ge.matches(&below));
    assert!(le.matches(&below));
    assert!(!le.matches(&empty));
}

#[test]
fn postings_record_positions_and_frequency() {
    let mut doc = Document::new();
    doc.add_posting(b"walk", Position::new(1), None);
    doc.add_posting(b"walk", Position::new(7), None);
    doc.add_term(b"walk", Some(3));
    doc.add_boolean_term(b"Qx");

    let mut terms = doc.terms();
    let walk = terms.next().unwrap();
    assert_eq!(walk.bytes(), &b"walk".to_vec());
    assert_eq!(walk.wdf(), 5);
    assert_eq!(walk.positions_len(), 2);
    let mut positions = walk.positions();
    assert_eq!(positions.next(), Some(&Position::new(1)));
    assert_eq!(positions.next(), Some(&Position::new(7)));
    assert_eq!(positions.next(), None);

    let marker = terms.next().unwrap();
    assert_eq!(marker.bytes(), &b"Qx".to_vec());
    assert_eq!(marker.wdf(), 0);
    assert!(terms.next().is_none());

    doc.remove_term(b"walk");
    assert!(!doc.has_term(b"walk"));
    assert!(doc.has_term(b"Qx"));
    doc.clear_terms();
    assert!(!doc.has_term(b"Qx"));
}

#[test]
fn subquery_iteration() {
    let q = Query::combine(
        Operator::Or,
        &Query::term(b"a", None, None),
        &Query::term(b"b", None, None),
    );
    let mut subs = q.subqueries();
    assert_eq!(subs.len(), 2);
    assert_eq!(subs.next().unwrap().operator(), Operator::LeafTerm);
    assert_eq!(subs.next().unwrap().operator(), Operator::LeafTerm);
    assert!(subs.next().is_none());
    let leaf = Query::term(b"a", None, None);
    let mut none = leaf.subqueries();
    assert_eq!(none.len(), 0);
    assert!(none.next().is_none());
}
