//! Editor state that is plain data: marker types of the editor camera and
//! of selected entities, and the drag-and-drop slot (plain or tagged with
//! the kind of item it takes).
use vstd::prelude::*;

verus! {

/// Marks the camera that the editor controls.
#[derive(Copy, Clone, Debug, PartialEq, Eq, Structural)]
pub struct EditorCamera;

/// Marks an entity selected in the editor.
#[derive(Copy, Clone, Debug, PartialEq, Eq, Structural)]
pub struct Selected;

/// What happened to a draggable element this frame.
#[derive(Copy, Clone, Debug, PartialEq, Eq, Structural)]
pub struct DraggableState {
    pub drag_started: bool,
    pub dropped: bool,
}

/// The item being dragged from one part of the editor to another, if any.
pub struct DragAndDrop<T> {
    pub item: Option<T>,
}

impl<T> DragAndDrop<T> {
    /// Nothing dragged.
    pub fn new() -> (d: Self)
        ensures
            d.item is None,
    {
        DragAndDrop { item: None }
    }

    /// A draggable element reports its state: starting a drag offers
    /// `item`, and a drop that nobody took clears the slot.
    pub fn drag(&mut self, state: DraggableState, item: T)
        ensures
            final(self).item == if state.dropped {
                None
            } else if state.drag_started {
                Some(item)
            } else {
                old(self).item
            },
    {
        if state.drag_started {
            self.item = Some(item);
        }
        if state.dropped {
            self.item = None;
        }
    }

    /// A drop target takes the dragged item, which leaves the slot.
    pub fn drop(&mut self) -> (r: Option<T>)
        ensures
            r == old(self).item,
            final(self).item is None,
    {
        let mut taken: Option<T> = None;
        core::mem::swap(&mut taken, &mut self.item);
        taken
    }

    /// Whether something is dragged.
    pub fn drop_valid(&self) -> (r: bool)
        ensures
            r == self.item is Some,
    {
        self.item.is_some()
    }

    /// The dragged item, left in place.
    pub fn peek(&self) -> (r: Option<&T>)
        ensures
            r == match self.item {
                Some(x) => Some(&x),
                None => None::<&T>,
            },
    {
        self.item.as_ref()
    }
}

impl<T> DragAndDrop<(u64, T)> {
    /// A drop target for items tagged `tag` (the kind of asset it takes)
    /// takes the dragged item, which leaves the slot whatever its tag; the
    /// item comes back only when its tag is `tag`.
    pub fn drop_tagged(&mut self, tag: u64) -> (r: Option<T>)
        ensures
            final(self).item is None,
            r == match old(self).item {
                Some((t, x)) => if t == tag {
                    Some(x)
                } else {
                    None::<T>
                },
                None => None::<T>,
            },
    {
        match self.drop() {
            Some((t, x)) => if t == tag {
                Some(x)
            } else {
                None
            },
            None => None,
        }
    }

    /// Whether an item tagged `tag` is dragged.
    pub fn drop_valid_tagged(&self, tag: u64) -> (r: bool)
        ensures
            r == (self.item matches Some((t, _)) && t == tag),
    {
        match &self.item {
            Some((t, _)) => *t == tag,
            None => false,
        }
    }
}

} // verus!
