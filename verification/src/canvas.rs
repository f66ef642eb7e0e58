//! Canvas interaction rules: snippet bounding boxes, hit testing and
//! selection after deleting a snippet.
use vstd::prelude::*;
use crate::bitmap::Bitmap;

verus! {

/// The box `(x0, y0, x1, y1)` (right and bottom exclusive) contains `(x, y)`.
pub open spec fn box_contains(b: (i32, i32, i32, i32), x: int, y: int) -> bool {
    b.0 <= x < b.2 && b.1 <= y < b.3
}

/// The index of the topmost (last) box containing `(x, y)`, if any.
pub fn hit_test(bboxes: &[(i32, i32, i32, i32)], x: i32, y: i32) -> (r: Option<usize>)
    ensures
        r matches Some(i) ==> i < bboxes@.len() && box_contains(bboxes@[i as int], x as int, y as int)
            && forall|j: int| i < j < bboxes@.len() ==> !box_contains(
                #[trigger] bboxes@[j],
                x as int,
                y as int,
            ),
        r is None ==> forall|j: int|
            0 <= j < bboxes@.len() ==> !box_contains(#[trigger] bboxes@[j], x as int, y as int),
{
    let mut i = bboxes.len();
    while i > 0
        invariant
            i <= bboxes@.len(),
            forall|j: int| i <= j < bboxes@.len() ==> !box_contains(
                #[trigger] bboxes@[j],
                x as int,
                y as int,
            ),
        decreases i,
    {
        let (x0, y0, x1, y1) = bboxes[i - 1];
        if x >= x0 && x < x1 && y >= y0 && y < y1 {
            return Some(i - 1);
        }
        i = i - 1;
    }
    None
}

/// The canvas box covered by a rendered snippet placed at `(ox, oy)`.
pub fn snippet_bbox(bitmap: &Bitmap, ox: i32, oy: i32) -> (r: (i32, i32, i32, i32))
    requires
        i32::MIN <= ox + (bitmap@.width as i32) <= i32::MAX,
        i32::MIN <= oy + (bitmap@.height as i32) <= i32::MAX,
    ensures
        r == (ox, oy, (ox + (bitmap@.width as i32)) as i32, (oy + (bitmap@.height as i32)) as i32),
{
    let w = bitmap.width() as i32;
    let h = bitmap.height() as i32;
    (ox, oy, ox + w, oy + h)
}

/// The selection after deleting the selected item of a list of `len`
/// items: nothing when the list becomes empty, the new last item when the
/// deleted item was last, and otherwise the same index (now the next item).
pub open spec fn selection_after_delete(idx: int, len: int) -> Option<usize> {
    if len - 1 == 0 {
        None
    } else if idx >= len - 1 {
        Some((len - 2) as usize)
    } else {
        Some(idx as usize)
    }
}

/// Delete the selected item, if the selection points at one, and move the
/// selection as `selection_after_delete` says. Returns whether an item was
/// deleted.
pub fn delete_selected<T>(items: &mut Vec<T>, selected: &mut Option<usize>) -> (deleted: bool)
    ensures
        deleted <==> (*old(selected) matches Some(i) && i < old(items)@.len()),
        deleted ==> final(items)@ == old(items)@.remove((*old(selected))->Some_0 as int)
            && *final(selected) == selection_after_delete(
            (*old(selected))->Some_0 as int,
            old(items)@.len() as int,
        ),
        !deleted ==> final(items)@ == old(items)@ && *final(selected) == *old(selected),
{
    if let Some(idx) = *selected {
        if idx < items.len() {
            items.remove(idx);
            if items.len() == 0 {
                *selected = None;
            } else if idx >= items.len() {
                *selected = Some(items.len() - 1);
            }
            return true;
        }
    }
    false
}

/// The selection after removing one item, leaving `len` items: nothing when
/// none is left, the new last item when the selection now points past the
/// end, and otherwise unchanged.
pub open spec fn selection_after_remove(selected: Option<usize>, len: int) -> Option<usize> {
    if len == 0 {
        None
    } else {
        match selected {
            Some(s) => if s >= len {
                Some((len - 1) as usize)
            } else {
                Some(s)
            },
            None => None,
        }
    }
}

/// Remove item `idx` (its delete button was pressed) and keep the selection
/// within the list, as `selection_after_remove` says.
pub fn remove_item<T>(items: &mut Vec<T>, idx: usize, selected: &mut Option<usize>)
    requires
        idx < old(items)@.len(),
    ensures
        final(items)@ == old(items)@.remove(idx as int),
        *final(selected) == selection_after_remove(*old(selected), old(items)@.len() - 1),
{
    items.remove(idx);
    if items.len() == 0 {
        *selected = None;
    } else if let Some(sel) = *selected {
        if sel >= items.len() {
            *selected = Some(items.len() - 1);
        }
    }
}

/// Hand out the next snippet id and advance the counter.
pub fn alloc_id(next: &mut u64) -> (id: u64)
    requires
        *old(next) < u64::MAX,
    ensures
        id == *old(next),
        *final(next) == *old(next) + 1,
{
    let id = *next;
    *next = *next + 1;
    id
}

} // verus!
