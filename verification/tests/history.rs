use pm64::history::{History, NUM_STATES};

#[test]
fn history() {
    let mut h = History::new(0);

    // Undo nor redo should not be allowed, there is no future and there is no past
    assert!(!h.undo());
    assert!(!h.redo());

    // Add two states
    *h = 1;
    assert!(h.commit()); // Should commit
    *h = 2;
    assert!(h.commit()); // Should commit

    // Undo those two states
    assert!(h.undo());
    assert!(h.undo());
    assert_eq!(*h, 0);

    // Redo
    assert!(h.redo());
    assert_eq!(*h, 1);

    // Undo then committing a new state should reset redo
    assert!(h.undo());
    assert_eq!(*h, 0);
    *h = 2;
    assert!(h.commit());
    assert!(!h.redo()); // Redo should not be possible, the present has diverged
    assert_eq!(*h, 2);
}

#[test]
fn unchanged_state_commits_nothing() {
    let mut h = History::new(5u8);
    assert!(!h.commit());
    *h = 5;
    assert!(!h.commit());
    assert!(!h.undo());
}

#[test]
fn undo_after_commit_restores_previous() {
    let mut h = History::new(10);
    *h = 20;
    assert!(h.commit());
    *h = 30;
    assert!(h.commit());
    assert!(h.undo());
    assert_eq!(*h, 20);
    assert!(h.redo());
    assert_eq!(*h, 30);
    assert!(!h.redo());
}

#[test]
fn undo_discards_uncommitted_edits() {
    let mut h = History::new(1);
    *h = 2;
    assert!(h.commit());
    *h = 99;
    assert!(h.undo());
    assert_eq!(*h, 1);
}

#[test]
fn full_ring_forgets_oldest_states() {
    let mut h = History::new(0usize);
    for i in 1..=40usize {
        *h = i;
        assert!(h.commit());
    }
    let mut undos = 0;
    while h.undo() {
        undos += 1;
    }
    assert_eq!(undos, NUM_STATES - 1);
    assert_eq!(*h, 40 - (NUM_STATES - 1));
    let mut redos = 0;
    while h.redo() {
        redos += 1;
    }
    assert_eq!(redos, NUM_STATES - 1);
    assert_eq!(*h, 40);
}
