use gds_text::bitmap::Bitmap;
use gds_text::canvas::{alloc_id, delete_selected, hit_test, remove_item, snippet_bbox};

#[test]
fn hit_test_prefers_topmost() {
    let boxes = vec![(0, 0, 10, 10), (5, 5, 15, 15)];
    assert_eq!(hit_test(&boxes, 6, 6), Some(1));
    assert_eq!(hit_test(&boxes, 1, 1), Some(0));
    assert_eq!(hit_test(&boxes, 10, 10), Some(1));
    assert_eq!(hit_test(&boxes, 20, 20), None);
    assert_eq!(hit_test(&boxes, -1, 0), None);
}

#[test]
fn hit_test_edges_are_half_open() {
    let boxes = vec![(2, 3, 4, 5)];
    assert_eq!(hit_test(&boxes, 2, 3), Some(0));
    assert_eq!(hit_test(&boxes, 3, 4), Some(0));
    assert_eq!(hit_test(&boxes, 4, 3), None);
    assert_eq!(hit_test(&boxes, 2, 5), None);
    assert_eq!(hit_test(&[], 0, 0), None);
}

#[test]
fn bbox_spans_the_bitmap() {
    let b = Bitmap::new(4, 3);
    assert_eq!(snippet_bbox(&b, 10, 20), (10, 20, 14, 23));
    assert_eq!(snippet_bbox(&b, -5, -1), (-5, -1, -1, 2));
}

#[test]
fn delete_last_selects_new_last() {
    let mut items = vec!['a', 'b', 'c'];
    let mut sel = Some(2);
    assert!(delete_selected(&mut items, &mut sel));
    assert_eq!(items, vec!['a', 'b']);
    assert_eq!(sel, Some(1));
}

#[test]
fn delete_middle_keeps_index() {
    let mut items = vec!['a', 'b', 'c'];
    let mut sel = Some(1);
    assert!(delete_selected(&mut items, &mut sel));
    assert_eq!(items, vec!['a', 'c']);
    assert_eq!(sel, Some(1));
}

#[test]
fn delete_only_item_clears_selection() {
    let mut items = vec![7u32];
    let mut sel = Some(0);
    assert!(delete_selected(&mut items, &mut sel));
    assert!(items.is_empty());
    assert_eq!(sel, None);
}

#[test]
fn delete_without_valid_selection_does_nothing() {
    let mut items = vec![1, 2];
    let mut sel: Option<usize> = None;
    assert!(!delete_selected(&mut items, &mut sel));
    assert_eq!(items, vec![1, 2]);
    let mut sel = Some(5);
    assert!(!delete_selected(&mut items, &mut sel));
    assert_eq!(items, vec![1, 2]);
    assert_eq!(sel, Some(5));
}

#[test]
fn remove_item_keeps_selection_in_range() {
    let mut items = vec!['a', 'b', 'c'];
    let mut sel = Some(2);
    remove_item(&mut items, 0, &mut sel);
    assert_eq!(items, vec!['b', 'c']);
    assert_eq!(sel, Some(1));
    remove_item(&mut items, 0, &mut sel);
    assert_eq!(sel, Some(0));
    let mut none: Option<usize> = None;
    remove_item(&mut items, 0, &mut none);
    assert!(items.is_empty());
    assert_eq!(none, None);
    let mut items = vec![1, 2, 3];
    let mut sel = Some(0);
    remove_item(&mut items, 2, &mut sel);
    assert_eq!(sel, Some(0));
    let mut items = vec![1];
    let mut sel = Some(0);
    remove_item(&mut items, 0, &mut sel);
    assert_eq!(sel, None);
}

#[test]
fn ids_count_up() {
    let mut next = 1u64;
    assert_eq!(alloc_id(&mut next), 1);
    assert_eq!(alloc_id(&mut next), 2);
    assert_eq!(next, 3);
}
