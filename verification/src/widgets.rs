//! The decisions of the window widgets that outlive a frame: which
//! sections are collapsed, and which dropdown is open and what it holds.
use std::collections::HashSet;
use vstd::prelude::*;

verus! {

broadcast use vstd::std_specs::hash::group_hash_axioms;

/// The collapsed sections after a click on the header of section `id`:
/// a collapsed section opens and an open one collapses.
pub open spec fn toggled(collapsed: Set<u64>, id: u64) -> Set<u64> {
    if collapsed.contains(id) {
        collapsed.remove(id)
    } else {
        collapsed.insert(id)
    }
}

/// The header of section `id` was drawn; `clicked` says whether it was
/// clicked in this frame. Updates the set of collapsed sections, kept in
/// the window's `open_headers`, and returns whether the section shows its
/// children.
pub fn header_click(open_headers: &mut HashSet<u64>, id: u64, clicked: bool) -> (open: bool)
    ensures
        final(open_headers)@ == if clicked {
            toggled(old(open_headers)@, id)
        } else {
            old(open_headers)@
        },
        open == !final(open_headers)@.contains(id),
{
    if clicked {
        if open_headers.contains(&id) {
            open_headers.remove(&id);
        } else {
            open_headers.insert(id);
        }
    }
    !open_headers.contains(&id)
}

/// Two clicks on the same header leave every section as it was.
pub proof fn lemma_header_click_twice(collapsed: Set<u64>, id: u64)
    ensures
        toggled(toggled(collapsed, id), id) == collapsed,
{
    assert(toggled(toggled(collapsed, id), id) =~= collapsed);
}

/// The element that has the focus after a click on the button of the
/// dropdown `id`: the dropdown opens, or closes when it was open.
pub open spec fn dropdown_focus_after_click(focused: Option<u64>, id: u64, clicked: bool) -> Option<
    u64,
> {
    if !clicked {
        focused
    } else if focused == Some(id) {
        None
    } else {
        Some(id)
    }
}

/// One frame of the dropdown `id` showing option `selected` while
/// `focused` has the focus: `clicked` says whether its button was clicked,
/// `picked` which option was clicked in its open list, if any. A click on
/// the button opens or closes the list; a pick, seen only while the list
/// is open after the click, closes it and selects the option. Returns the
/// focus and the selected option after the frame.
pub fn dropdown_step(
    focused: Option<u64>,
    id: u64,
    selected: usize,
    clicked: bool,
    picked: Option<usize>,
) -> (r: (Option<u64>, usize))
    ensures
        ({
            let after = dropdown_focus_after_click(focused, id, clicked);
            r == if after == Some(id) && picked is Some {
                (None::<u64>, picked->0)
            } else {
                (after, selected)
            }
        }),
{
    let mut focus = focused;
    if clicked {
        if focus == Some(id) {
            focus = None;
        } else {
            focus = Some(id);
        }
    }
    if focus == Some(id) {
        if let Some(i) = picked {
            return (None, i);
        }
    }
    (focus, selected)
}

} // verus!
