use pagestore::replacer::{FrameId, LRUReplacer, Replacer};

#[test]
fn replacer_test() {
    let mut replacer = LRUReplacer::new(10);
    for i in 0..10 {
        replacer.unpin(FrameId(i));
    }
    replacer.pin(FrameId(5));
    assert_eq!(replacer.victim(), Some(FrameId(0)));
    assert_eq!(replacer.victim(), Some(FrameId(1)));
    assert_eq!(replacer.victim(), Some(FrameId(2)));
    assert_eq!(replacer.victim(), Some(FrameId(3)));
    assert_eq!(replacer.victim(), Some(FrameId(4)));
    assert_eq!(replacer.victim(), Some(FrameId(6)));
    assert_eq!(replacer.victim(), Some(FrameId(7)));
    assert_eq!(replacer.victim(), Some(FrameId(8)));
    assert_eq!(replacer.victim(), Some(FrameId(9)));
}

#[test]
fn sample_test() {
    let mut replacer = LRUReplacer::new(7);
    replacer.unpin(FrameId(1));
    replacer.unpin(FrameId(2));
    replacer.unpin(FrameId(3));
    replacer.unpin(FrameId(4));
    replacer.unpin(FrameId(5));
    replacer.unpin(FrameId(6));
    assert_eq!(replacer.size(), 6);
}

#[test]
fn victim_on_empty_returns_none() {
    let mut replacer = LRUReplacer::new(3);
    assert_eq!(replacer.victim(), None);
    replacer.unpin(FrameId(2));
    assert_eq!(replacer.victim(), Some(FrameId(2)));
    assert_eq!(replacer.victim(), None);
}

#[test]
fn reunpin_after_pin_moves_to_back() {
    let mut replacer = LRUReplacer::new(4);
    replacer.unpin(FrameId(0));
    replacer.unpin(FrameId(1));
    replacer.pin(FrameId(0));
    replacer.unpin(FrameId(0));
    assert_eq!(replacer.victim(), Some(FrameId(1)));
    assert_eq!(replacer.victim(), Some(FrameId(0)));
}
