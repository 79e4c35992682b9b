use wavemark::history::{History, MAX_UNDO};

#[test]
fn undo_then_redo_round_trips() {
    let mut h: History<u32> = History::new();
    assert!(!h.can_undo());
    assert!(!h.can_redo());
    let mut current = Some(1);
    h.push(1);
    current = Some(2);
    h.push(2);
    current = Some(3);
    assert!(h.undo(&mut current));
    assert_eq!(current, Some(2));
    assert!(h.can_redo());
    assert!(h.undo(&mut current));
    assert_eq!(current, Some(1));
    assert!(!h.undo(&mut current), "nothing left to undo");
    assert_eq!(current, Some(1));
    assert!(h.redo(&mut current));
    assert_eq!(current, Some(2));
    assert!(h.redo(&mut current));
    assert_eq!(current, Some(3));
    assert!(!h.redo(&mut current));
    assert_eq!(current, Some(3));
}

#[test]
fn a_new_edit_clears_redo() {
    let mut h: History<u32> = History::new();
    let mut current = Some(2);
    h.push(1);
    assert!(h.undo(&mut current));
    assert!(h.can_redo());
    h.push(1);
    assert!(!h.can_redo());
}

#[test]
fn history_is_bounded() {
    let mut h: History<usize> = History::new();
    for i in 0..MAX_UNDO + 10 {
        h.push(i);
    }
    assert_eq!(h.undo_stack.len(), MAX_UNDO);
    assert_eq!(h.undo_stack[0], 10, "the oldest snapshots are dropped");
    let mut current = None;
    assert!(h.undo(&mut current));
    assert_eq!(current, Some(MAX_UNDO + 9));
    assert!(h.redo_stack.is_empty(), "no current state, nothing to redo");
}
