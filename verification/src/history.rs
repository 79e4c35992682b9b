//! Undo and redo over snapshots of the edited state. Only the session is ever
//! snapshotted (it is small), never audio.
use vstd::prelude::*;

verus! {

/// Depth of the undo history.
pub const MAX_UNDO: usize = 50;

/// Snapshots taken before each edit (`undo_stack`, oldest first) and those
/// stepped back over (`redo_stack`, most recent last).
pub struct History<T> {
    pub undo_stack: Vec<T>,
    pub redo_stack: Vec<T>,
}

/// The history with `snapshot` recorded before an edit: it goes on top of the
/// undo stack, the oldest snapshot is dropped past `MAX_UNDO`, and redo is
/// cleared, since a new edit starts a new line of history.
pub open spec fn pushed<T>(undo: Seq<T>, snapshot: T) -> Seq<T> {
    let u = undo.push(snapshot);
    if u.len() > MAX_UNDO { u.drop_first() } else { u }
}

/// Undo, as plain values: `(undo, redo, current)` after stepping back once,
/// or unchanged when there is nothing to undo. The current state, if any,
/// moves onto the redo stack; the top undo snapshot becomes current.
pub open spec fn undone<T>(undo: Seq<T>, redo: Seq<T>, current: Option<T>) -> (Seq<T>, Seq<T>, Option<T>) {
    if undo.len() == 0 {
        (undo, redo, current)
    } else {
        (undo.drop_last(), match current { Some(c) => redo.push(c), None => redo }, Some(undo.last()))
    }
}

/// Redo, as plain values: the mirror image of `undone`.
pub open spec fn redone<T>(undo: Seq<T>, redo: Seq<T>, current: Option<T>) -> (Seq<T>, Seq<T>, Option<T>) {
    if redo.len() == 0 {
        (undo, redo, current)
    } else {
        (match current { Some(c) => undo.push(c), None => undo }, redo.drop_last(), Some(redo.last()))
    }
}

impl<T> History<T> {
    /// The stacks hold at most `MAX_UNDO` snapshots between them.
    pub open spec fn bounded(&self) -> bool {
        self.undo_stack@.len() + self.redo_stack@.len() <= MAX_UNDO
    }

    /// An empty history.
    pub fn new() -> (h: History<T>)
        ensures
            h.undo_stack@.len() == 0,
            h.redo_stack@.len() == 0,
    {
        History { undo_stack: Vec::new(), redo_stack: Vec::new() }
    }

    /// Records `snapshot`, the state before an edit.
    pub fn push(&mut self, snapshot: T)
        ensures
            final(self).undo_stack@ == pushed(old(self).undo_stack@, snapshot),
            final(self).redo_stack@.len() == 0,
            old(self).undo_stack@.len() <= MAX_UNDO ==> final(self).bounded(),
    {
        self.undo_stack.push(snapshot);
        if self.undo_stack.len() > MAX_UNDO {
            self.undo_stack.remove(0);
            assert(self.undo_stack@ =~= old(self).undo_stack@.push(snapshot).drop_first());
        }
        self.redo_stack.clear();
    }

    /// Whether there is an edit to undo.
    pub fn can_undo(&self) -> (b: bool)
        ensures
            b == (self.undo_stack@.len() > 0),
    {
        self.undo_stack.len() > 0
    }

    /// Whether there is an undone edit to redo.
    pub fn can_redo(&self) -> (b: bool)
        ensures
            b == (self.redo_stack@.len() > 0),
    {
        self.redo_stack.len() > 0
    }

    /// Steps back once: the latest snapshot becomes `current`, and what was
    /// current goes onto the redo stack. False, with nothing changed, when
    /// there is nothing to undo.
    pub fn undo(&mut self, current: &mut Option<T>) -> (stepped: bool)
        ensures
            stepped == (old(self).undo_stack@.len() > 0),
            (final(self).undo_stack@, final(self).redo_stack@, *final(current))
                == undone(old(self).undo_stack@, old(self).redo_stack@, *old(current)),
            old(self).bounded() ==> final(self).bounded(),
    {
        match self.undo_stack.pop() {
            None => false,
            Some(prev) => {
                if let Some(cur) = current.take() {
                    self.redo_stack.push(cur);
                }
                *current = Some(prev);
                true
            },
        }
    }

    /// Steps forward once, undoing an undo. False, with nothing changed, when
    /// there is nothing to redo.
    pub fn redo(&mut self, current: &mut Option<T>) -> (stepped: bool)
        ensures
            stepped == (old(self).redo_stack@.len() > 0),
            (final(self).undo_stack@, final(self).redo_stack@, *final(current))
                == redone(old(self).undo_stack@, old(self).redo_stack@, *old(current)),
            old(self).bounded() ==> final(self).bounded(),
    {
        match self.redo_stack.pop() {
            None => false,
            Some(next) => {
                if let Some(cur) = current.take() {
                    self.undo_stack.push(cur);
                }
                *current = Some(next);
                true
            },
        }
    }
}

/// Redo takes back an undo: after stepping back from a current state,
/// stepping forward again restores the stacks and the state exactly.
pub proof fn lemma_redo_after_undo<T>(undo: Seq<T>, redo: Seq<T>, current: T)
    requires
        undo.len() > 0,
    ensures
        ({
            let (u, r, c) = undone(undo, redo, Some(current));
            redone(u, r, c)
        }) == (undo, redo, Some(current)),
{
    assert(undo.drop_last().push(undo.last()) == undo);
    assert(redo.push(current).drop_last() == redo);
}

/// Undo takes back a redo, in the same way.
pub proof fn lemma_undo_after_redo<T>(undo: Seq<T>, redo: Seq<T>, current: T)
    requires
        redo.len() > 0,
    ensures
        ({
            let (u, r, c) = redone(undo, redo, Some(current));
            undone(u, r, c)
        }) == (undo, redo, Some(current)),
{
    assert(redo.drop_last().push(redo.last()) == redo);
    assert(undo.push(current).drop_last() == undo);
}

/// Undo after recording a snapshot gives that snapshot back as the current
/// state, whatever was edited in between.
pub proof fn lemma_undo_after_push<T>(undo: Seq<T>, snapshot: T, edited: T)
    ensures
        undone(pushed(undo, snapshot), Seq::<T>::empty(), Some(edited)).2 == Some(snapshot),
        undone(pushed(undo, snapshot), Seq::<T>::empty(), Some(edited)).1 == seq![edited],
{
    assert(Seq::<T>::empty().push(edited) =~= seq![edited]);
}

} // verus!
