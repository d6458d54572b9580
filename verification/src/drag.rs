//! The drag-reorder controller: a small state machine fed by discrete
//! drag-start / hover / release events, decoupled from any rendering. A
//! gesture resolves on release into at most one reorder of one category.
use vstd::prelude::*;

use crate::model::{move_seq, ranked, rerank, Document};

verus! {

/// An in-progress drag: the source coordinates, and the hover target the
/// pointer saw last (last-hovered-wins). Coordinates are
/// `(category index, item index)`; an item index equal to the category's
/// length stands for the end-of-list drop zone.
pub struct DragState {
    pub dragging: Option<(usize, usize)>,
    pub drag_target: Option<(usize, usize)>,
}

impl DragState {
    /// No gesture in progress.
    pub fn new() -> (r: DragState)
        ensures
            r.dragging is None,
            r.drag_target is None,
    {
        DragState { dragging: None, drag_target: None }
    }

    /// Pointer went down on an item: the gesture (re)starts there. A drag
    /// already in progress is simply overwritten.
    pub fn drag_start(&mut self, cat: usize, idx: usize)
        ensures
            final(self).dragging == Some((cat, idx)),
            final(self).drag_target == old(self).drag_target,
    {
        self.dragging = Some((cat, idx));
    }

    /// Pointer hovers a position while a drag is in progress: the target is
    /// rewritten every time, so the last hover wins. Without a drag in
    /// progress the event is ignored.
    pub fn hover(&mut self, cat: usize, idx: usize)
        ensures
            final(self).dragging == old(self).dragging,
            old(self).dragging is Some ==> final(self).drag_target == Some((cat, idx)),
            old(self).dragging is None ==> final(self).drag_target == old(self).drag_target,
    {
        if self.dragging.is_some() {
            self.drag_target = Some((cat, idx));
        }
    }

    /// Whether the current source and target resolve into a reorder: both
    /// set, same category, different positions. Cross-category drags are
    /// detected but deliberately ignored.
    pub open spec fn resolves(&self) -> bool {
        &&& self.dragging is Some
        &&& self.drag_target is Some
        &&& self.dragging.unwrap().0 == self.drag_target.unwrap().0
        &&& self.dragging.unwrap().1 != self.drag_target.unwrap().1
    }

    /// Pointer released: the gesture ends. Returns the reorder it asks for,
    /// as `(category, from, to)`, or `None`. Both fields are cleared
    /// whatever the outcome.
    pub fn release(&mut self) -> (r: Option<(usize, usize, usize)>)
        ensures
            final(self).dragging is None,
            final(self).drag_target is None,
            r is Some <==> old(self).resolves(),
            r is Some ==> r.unwrap() == (
                old(self).dragging.unwrap().0,
                old(self).dragging.unwrap().1,
                old(self).drag_target.unwrap().1,
            ),
    {
        let r = match (self.dragging, self.drag_target) {
            (Some((from_cat, from_idx)), Some((to_cat, to_idx))) => {
                if from_cat == to_cat && from_idx != to_idx {
                    Some((from_cat, from_idx, to_idx))
                } else {
                    None
                }
            },
            _ => None,
        };
        self.dragging = None;
        self.drag_target = None;
        r
    }

    /// Ends the gesture and applies the reorder it resolves to, if any, to
    /// the document. Returns whether the document may have changed (the cue
    /// to persist it). A resolved gesture whose positions have gone stale
    /// (out of range by now) still reports a change, as a harmless no-op
    /// reorder.
    pub fn release_into(&mut self, doc: &mut Document) -> (changed: bool)
        ensures
            final(self).dragging is None,
            final(self).drag_target is None,
            changed <==> old(self).resolves() && old(self).dragging.unwrap().0 < old(
                doc,
            )@.categories.len(),
            !changed ==> final(doc)@ == old(doc)@,
            changed ==> ({
                let c = old(self).dragging.unwrap().0 as int;
                let from = old(self).dragging.unwrap().1;
                let to = old(self).drag_target.unwrap().1;
                let cat = old(doc)@.categories[c];
                &&& final(doc)@.categories.len() == old(doc)@.categories.len()
                &&& forall|j: int|
                    0 <= j < old(doc)@.categories.len() && j != c
                        ==> final(doc)@.categories[j] == old(doc)@.categories[j]
                &&& final(doc)@.categories[c].name == cat.name
                &&& (from < cat.items.len() && to <= cat.items.len()
                    ==> final(doc)@.categories[c].items == rerank(
                        move_seq(cat.items, from as int, to as int),
                    ) && ranked(final(doc)@.categories[c].items))
                &&& (!(from < cat.items.len() && to <= cat.items.len())
                    ==> final(doc)@.categories[c] == cat)
            }),
    {
        let r = self.release();
        match r {
            Some((c, from, to)) => {
                if c < doc.len() {
                    let category = doc.category_mut(c);
                    category.move_item(from, to);
                    proof {
                        assert forall|j: int|
                            0 <= j < old(doc)@.categories.len() && j != c implies doc@.categories[j]
                            == old(doc)@.categories[j] by {
                            assert(doc.categories@[j] == old(doc).categories@[j]);
                        }
                    }
                    true
                } else {
                    false
                }
            },
            None => false,
        }
    }
}

} // verus!
