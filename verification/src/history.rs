use vstd::prelude::*;

use crate::model::Project;

verus! {

/// How many undo steps are kept; the oldest is dropped beyond this.
pub const MAX_HISTORY: usize = 50;

/// Abstract state of the undo/redo history: the snapshots that undo would
/// restore (most recent last) and those that redo would restore.
pub struct HistoryView {
    pub undo: Seq<Project>,
    pub redo: Seq<Project>,
}

impl HistoryView {
    /// At most `MAX_HISTORY` snapshots are held in all.
    pub open spec fn bounded(self) -> bool {
        self.undo.len() + self.redo.len() <= MAX_HISTORY
    }

    /// Recording the state before an edit: it becomes the newest undo step
    /// (the oldest step is dropped past `MAX_HISTORY`) and redo is forgotten.
    pub open spec fn pushed(self, before: Project) -> HistoryView {
        let u = self.undo.push(before);
        HistoryView {
            undo: if u.len() > MAX_HISTORY {
                u.drop_first()
            } else {
                u
            },
            redo: Seq::empty(),
        }
    }

    /// Undoing from the state `current`: the newest undo step comes back and
    /// `current` becomes the newest redo step; with nothing to undo, nothing
    /// changes.
    pub open spec fn undone(self, current: Project) -> (Option<Project>, HistoryView) {
        if self.undo.len() == 0 {
            (None, self)
        } else {
            (
                Some(self.undo.last()),
                HistoryView { undo: self.undo.drop_last(), redo: self.redo.push(current) },
            )
        }
    }

    /// Redoing from the state `current`: the mirror image of `undone`.
    pub open spec fn redone(self, current: Project) -> (Option<Project>, HistoryView) {
        if self.redo.len() == 0 {
            (None, self)
        } else {
            (
                Some(self.redo.last()),
                HistoryView { undo: self.undo.push(current), redo: self.redo.drop_last() },
            )
        }
    }
}

/// Undo right after recording a snapshot gives that very snapshot back, and
/// the state it was undone from becomes the only redo step.
pub proof fn lemma_undo_after_push(h: HistoryView, before: Project, current: Project)
    requires
        h.bounded(),
    ensures
        h.pushed(before).undone(current).0 == Some(before),
        h.pushed(before).undone(current).1.redo == seq![current],
        h.pushed(before).undone(current).1.undo.len() == if h.undo.len() == MAX_HISTORY {
            h.undo.len() - 1
        } else {
            h.undo.len() as int
        },
{
    assert(h.pushed(before).undone(current).1.redo =~= seq![current]);
}

/// Undo followed by redo of what undo returned restores the history exactly
/// and hands back the state that was current before the undo.
pub proof fn lemma_undo_then_redo(h: HistoryView, current: Project)
    requires
        h.undo.len() > 0,
    ensures
        h.undone(current).1.redone(h.undone(current).0.unwrap()) == (Some(current), h),
{
    let h1 = h.undone(current).1;
    assert(h1.redo.drop_last() =~= h.redo);
    assert(h1.undo.push(h.undo.last()) =~= h.undo);
}

/// Redo followed by undo of what redo returned restores the history exactly
/// and hands back the state that was current before the redo.
pub proof fn lemma_redo_then_undo(h: HistoryView, current: Project)
    requires
        h.redo.len() > 0,
    ensures
        h.redone(current).1.undone(h.redone(current).0.unwrap()) == (Some(current), h),
{
    let h1 = h.redone(current).1;
    assert(h1.undo.drop_last() =~= h.undo);
    assert(h1.redo.push(h.redo.last()) =~= h.redo);
}

/// With nothing recorded, undo (and likewise redo) returns nothing and
/// leaves the history as it was.
pub proof fn lemma_nothing_to_undo(h: HistoryView, current: Project)
    ensures
        h.undo.len() == 0 ==> h.undone(current) == (None::<Project>, h),
        h.redo.len() == 0 ==> h.redone(current) == (None::<Project>, h),
{
}

/// Every operation keeps the history within `MAX_HISTORY` snapshots; once
/// the limit is reached, recording drops the oldest undo step.
pub proof fn lemma_history_bounded(h: HistoryView, s: Project)
    requires
        h.bounded(),
    ensures
        h.pushed(s).bounded(),
        h.undone(s).1.bounded(),
        h.redone(s).1.bounded(),
        h.undo.len() == MAX_HISTORY ==> h.pushed(s).undo == h.undo.drop_first().push(s),
{
    if h.undo.len() == MAX_HISTORY {
        assert(h.undo.push(s).drop_first() =~= h.undo.drop_first().push(s));
    }
}

/// Bounded undo/redo stacks of whole-project snapshots.
pub struct History {
    undo_stack: Vec<Project>,
    redo_stack: Vec<Project>,
}

impl View for History {
    type V = HistoryView;

    closed spec fn view(&self) -> HistoryView {
        HistoryView { undo: self.undo_stack@, redo: self.redo_stack@ }
    }
}

impl History {
    #[verifier::type_invariant]
    spec fn within_limit(self) -> bool {
        self.undo_stack@.len() + self.redo_stack@.len() <= MAX_HISTORY
    }

    pub fn new() -> (h: Self)
        ensures
            h@.undo == Seq::<Project>::empty(),
            h@.redo == Seq::<Project>::empty(),
    {
        History { undo_stack: Vec::new(), redo_stack: Vec::new() }
    }

    /// Call before committing a mutation, passing the state *before* the change.
    pub fn push(&mut self, before: Project)
        ensures
            final(self)@ == old(self)@.pushed(before),
            final(self)@.bounded(),
    {
        proof {
            use_type_invariant(&*self);
        }
        let mut undo: Vec<Project> = Vec::new();
        std::mem::swap(&mut undo, &mut self.undo_stack);
        self.redo_stack = Vec::new();
        if undo.len() >= MAX_HISTORY {
            undo.remove(0);
        }
        undo.push(before);
        proof {
            let u = old(self)@.undo.push(before);
            if u.len() > MAX_HISTORY {
                assert(undo@ =~= u.drop_first());
            } else {
                assert(undo@ =~= u);
            }
        }
        self.undo_stack = undo;
    }

    pub fn undo(&mut self, current: Project) -> (r: Option<Project>)
        ensures
            (r, final(self)@) == old(self)@.undone(current),
            final(self)@.bounded(),
    {
        proof {
            use_type_invariant(&*self);
        }
        if self.undo_stack.len() == 0 {
            return None;
        }
        let mut undo: Vec<Project> = Vec::new();
        let mut redo: Vec<Project> = Vec::new();
        std::mem::swap(&mut undo, &mut self.undo_stack);
        std::mem::swap(&mut redo, &mut self.redo_stack);
        let prev = undo.pop();
        redo.push(current);
        self.undo_stack = undo;
        self.redo_stack = redo;
        prev
    }

    pub fn redo(&mut self, current: Project) -> (r: Option<Project>)
        ensures
            (r, final(self)@) == old(self)@.redone(current),
            final(self)@.bounded(),
    {
        proof {
            use_type_invariant(&*self);
        }
        if self.redo_stack.len() == 0 {
            return None;
        }
        let mut undo: Vec<Project> = Vec::new();
        let mut redo: Vec<Project> = Vec::new();
        std::mem::swap(&mut undo, &mut self.undo_stack);
        std::mem::swap(&mut redo, &mut self.redo_stack);
        let next = redo.pop();
        undo.push(current);
        self.redo_stack = redo;
        self.undo_stack = undo;
        next
    }

    pub fn can_undo(&self) -> (r: bool)
        ensures
            r == (self@.undo.len() > 0),
    {
        !self.undo_stack.is_empty()
    }

    pub fn can_redo(&self) -> (r: bool)
        ensures
            r == (self@.redo.len() > 0),
    {
        !self.redo_stack.is_empty()
    }
}

} // verus!
