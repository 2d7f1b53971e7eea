use xapian_rs::callback::{decisions_direct, decisions_via_bridge, Stopper};
use xapian_rs::search::{ExpandDecider, MatchDecider, MatchSpy, Weight, UNIT_WEIGHT_BITS};
use xapian_rs::{
    Document, PrefixExpandDecider, Registry, RustExpandDecider, RustFieldProcessor,
    RustMatchDecider, RustMatchSpy, RustStopper, Slot, TermFieldProcessor, ValueCountMatchSpy,
    ValueRejectDecider, WordListStopper,
};

#[test]
fn bridge_verdicts_match_direct_calls() {
    // for a fixed filter and candidate list, the verdicts through the
    // bridge equal the direct ones, in the same order.
    let sentinel = b"reject-me";
    let mut docs: Vec<Document> = Vec::new();
    for i in 0..6u32 {
        let mut d = Document::new();
        if i % 2 == 0 {
            d.set_value(Slot::new(1), sentinel);
        } else {
            d.set_value(Slot::new(1), b"ok");
        }
        docs.push(d);
    }
    let decider = ValueRejectDecider::new(Slot::new(1), sentinel);
    let peer = RustMatchDecider::from_trait(ValueRejectDecider::new(Slot::new(1), sentinel));
    let via_bridge = decisions_via_bridge(&peer, &docs);
    let direct = decisions_direct(&decider, &docs);
    assert_eq!(via_bridge, direct);
    assert_eq!(via_bridge, vec![false, true, false, true, false, true]);
}

#[test]
fn match_decider_peer_snapshots_the_document() {
    let decider = ValueRejectDecider::new(Slot::new(0), b"x");
    let peer = RustMatchDecider::from_trait(decider);
    let mut doc = Document::new();
    doc.set_value(Slot::new(0), b"x");
    assert!(!peer.is_match(&doc));
    doc.set_value(Slot::new(0), b"y");
    assert!(peer.is_match(&doc));
}

#[test]
fn match_spy_peer_forwards_observations() {
    let spy = ValueCountMatchSpy::new(Slot::new(0));
    let mut peer = RustMatchSpy::from_trait(spy);
    let mut doc = Document::new();
    doc.set_value(Slot::new(0), b"v");
    peer.observe(&doc, Weight { bits: UNIT_WEIGHT_BITS });
    peer.observe(&doc, Weight { bits: UNIT_WEIGHT_BITS });
    let spy = peer.into_inner();
    assert_eq!(spy.count_of(b"v"), 2);
}

#[test]
fn expand_decider_peer_forwards_verdicts() {
    let peer = RustExpandDecider::from_trait(PrefixExpandDecider::new(b"Z"));
    assert!(peer.should_keep(b"Zebra"));
    assert!(!peer.should_keep(b"ant"));
}

#[test]
fn stopper_peer_forwards_verdicts() {
    let words: Vec<Vec<u8>> = vec![b"the".to_vec(), b"a".to_vec()];
    let peer = RustStopper::from_trait(WordListStopper::new(words));
    assert!(peer.is_stopword(b"the"));
    assert!(peer.is_stopword(b"a"));
    assert!(!peer.is_stopword(b"zebra"));
}

#[test]
fn declined_field_becomes_the_invalid_sentinel() {
    let peer = RustFieldProcessor::from_trait(TermFieldProcessor);
    let produced = peer.process(b"title");
    assert!(!produced.is_invalid());
    let declined = peer.process(b"");
    assert!(declined.is_invalid());
}

#[test]
fn registry_handles_are_generation_checked() {
    let mut reg: Registry<WordListStopper> = Registry::new();
    let h1 = reg.register(WordListStopper::new(vec![b"x".to_vec()]));
    let h2 = reg.register(WordListStopper::new(vec![b"y".to_vec()]));
    assert!(reg.get(h1).is_some());
    assert!(reg.get(h2).is_some());
    assert!(reg.get(h1).unwrap().is_stopword(b"x"));

    let taken = reg.unregister(h1);
    assert!(taken.is_some());
    assert!(reg.get(h1).is_none());
    assert!(reg.unregister(h1).is_none());
    assert!(reg.get(h2).is_some());
    assert!(reg.get(h2).unwrap().is_stopword(b"y"));
}

#[test]
fn unnamed_observers_get_the_fallback_name() {
    let peer = RustMatchSpy::from_trait(ValueCountMatchSpy::new(Slot::new(0)));
    // the wrapped observer goes unnamed; the peer answers with the fixed
    // fallback so the engine's diagnostics always have something to show
    assert_eq!(ValueCountMatchSpy::new(Slot::new(0)).name(), None);
    assert_eq!(peer.name(), Some("matchspy".to_string()));
}
