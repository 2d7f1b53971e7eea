use xapian_rs::cursor::SeqCursor;

#[test]
fn cursor_forward_then_exhausted() {
    let items: Vec<u32> = vec![1, 2, 3];
    let mut c = SeqCursor::new(&items);
    assert_eq!(c.len(), 3);
    assert_eq!(c.next(), Some(&1));
    assert_eq!(c.next(), Some(&2));
    assert_eq!(c.next(), Some(&3));
    assert!(c.is_exhausted());
    assert_eq!(c.next(), None);
    assert_eq!(c.next_back(), None);
}

#[test]
fn cursor_backward_steps_before_yield() {
    let items: Vec<u32> = vec![1, 2, 3];
    let mut c = SeqCursor::new(&items);
    assert_eq!(c.next_back(), Some(&3));
    assert_eq!(c.next_back(), Some(&2));
    assert_eq!(c.next_back(), Some(&1));
    assert_eq!(c.next_back(), None);
    assert_eq!(c.next(), None);
}

#[test]
fn cursor_meeting_interleaved() {
    // however forward and backward steps interleave, exactly the n
    // items come out, none twice, none skipped.
    let items: Vec<u32> = vec![10, 20, 30, 40, 50];
    // interleavings encoded as step patterns: true = forward
    let patterns: [&[bool]; 4] = [
        &[true, false, true, false, true, false],
        &[false, false, false, false, false, true],
        &[true, true, false, false, true, false],
        &[false, true, false, true, false, true],
    ];
    for pattern in patterns {
        let mut c = SeqCursor::new(&items);
        let mut seen: Vec<u32> = Vec::new();
        for &fwd in pattern.iter() {
            let got = if fwd { c.next() } else { c.next_back() };
            if let Some(v) = got {
                seen.push(*v);
            }
        }
        assert!(c.is_exhausted());
        assert_eq!(c.next(), None);
        assert_eq!(c.next_back(), None);
        seen.sort();
        assert_eq!(seen, vec![10, 20, 30, 40, 50], "pattern {:?}", pattern);
    }
}

#[test]
fn cursor_duplicate_copies_position_only() {
    let items: Vec<u32> = vec![1, 2, 3, 4];
    let mut c = SeqCursor::new(&items);
    c.next();
    let mut d = c.duplicate();
    assert_eq!(d.len(), 3);
    assert_eq!(d.next(), Some(&2));
    // the original cursor is unaffected by stepping the copy
    assert_eq!(c.len(), 3);
}
