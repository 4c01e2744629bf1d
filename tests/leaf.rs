use loro_core::id::ID;
use loro_core::leaf::{LeafNode, MAX_CHILDREN, MIN_CHILDREN};
use loro_core::y_span::{Status, YSpan};

fn span(client: u64, counter: u32, len: u32, left: Option<ID>) -> YSpan {
    YSpan { origin_left: left, origin_right: None, id: ID::new(client, counter), len, status: Status::new() }
}

/// The leaf's items as (client, first counter, length).
fn shape(leaf: &LeafNode) -> Vec<(u64, u32, u32)> {
    leaf.children().iter().map(|x| (x.id.client_id, x.id.counter, x.len)).collect()
}

#[test]
fn new_leaf_is_empty() {
    let leaf = LeafNode::new(3, 1);
    assert!(leaf.children().is_empty());
    assert_eq!(leaf.cache, 0);
    assert_eq!(leaf.key, 3);
    assert_eq!(leaf.parent, 1);
    assert_eq!(leaf.next(), None);
    assert_eq!(leaf.prev(), None);
    assert!(leaf.check());
}

#[test]
fn push_child_merges_continuation() {
    let mut leaf = LeafNode::new(0, 0);
    assert!(leaf.push_child(span(1, 0, 3, None), 9).is_ok());
    assert!(leaf.push_child(span(1, 3, 2, Some(ID::new(1, 2))), 9).is_ok());
    assert_eq!(shape(&leaf), vec![(1, 0, 5)]);
    assert_eq!(leaf.cache, 5);
    assert!(leaf.push_child(span(2, 0, 1, None), 9).is_ok());
    assert_eq!(shape(&leaf), vec![(1, 0, 5), (2, 0, 1)]);
    assert_eq!(leaf.cache, 6);
}

#[test]
fn insert_in_the_middle_cuts_the_item() {
    let mut leaf = LeafNode::new(0, 0);
    leaf.insert(0, span(1, 0, 3, None), 9).unwrap();
    leaf.insert(1, span(2, 0, 1, Some(ID::new(1, 0))), 9).unwrap();
    assert_eq!(shape(&leaf), vec![(1, 0, 1), (2, 0, 1), (1, 1, 2)]);
    assert_eq!(leaf.children()[2].origin_left, Some(ID::new(1, 0)));
    assert_eq!(leaf.cache, 4);
    assert!(leaf.check());
}

#[test]
fn insert_at_clean_cut_merges_into_previous() {
    let mut leaf = LeafNode::new(0, 0);
    leaf.insert(0, span(1, 0, 2, None), 9).unwrap();
    leaf.insert(2, span(2, 0, 2, None), 9).unwrap();
    leaf.insert(2, span(1, 2, 3, Some(ID::new(1, 1))), 9).unwrap();
    assert_eq!(shape(&leaf), vec![(1, 0, 5), (2, 0, 2)]);
    assert_eq!(leaf.cache, 7);
}

#[test]
fn insert_at_start_and_end() {
    let mut leaf = LeafNode::new(0, 0);
    leaf.insert(0, span(1, 0, 2, None), 9).unwrap();
    leaf.insert(0, span(2, 0, 1, None), 9).unwrap();
    leaf.insert(3, span(3, 0, 1, None), 9).unwrap();
    assert_eq!(shape(&leaf), vec![(2, 0, 1), (1, 0, 2), (3, 0, 1)]);
}

#[test]
fn delete_inside_one_item_keeps_both_ends() {
    let mut leaf = LeafNode::new(0, 0);
    leaf.insert(0, span(1, 0, 3, None), 9).unwrap();
    leaf.delete(Some(1), Some(2), 9).unwrap();
    assert_eq!(shape(&leaf), vec![(1, 0, 1), (1, 2, 1)]);
    assert_eq!(leaf.children()[1].origin_left, Some(ID::new(1, 1)));
    assert_eq!(leaf.cache, 2);
}

#[test]
fn delete_across_items() {
    let mut leaf = LeafNode::new(0, 0);
    for c in 0..4u64 {
        leaf.push_child(span(c, 0, 3, None), 9).unwrap();
    }
    leaf.delete(Some(2), Some(10), 9).unwrap();
    assert_eq!(shape(&leaf), vec![(0, 0, 2), (3, 1, 2)]);
    assert_eq!(leaf.cache, 4);
    leaf.delete(None, Some(2), 9).unwrap();
    assert_eq!(shape(&leaf), vec![(3, 1, 2)]);
    leaf.delete(Some(0), None, 9).unwrap();
    assert!(leaf.children().is_empty());
    assert_eq!(leaf.cache, 0);
}

#[test]
fn delete_whole_items_on_boundaries() {
    let mut leaf = LeafNode::new(0, 0);
    for c in 0..3u64 {
        leaf.push_child(span(c, 0, 2, None), 9).unwrap();
    }
    leaf.delete(Some(2), Some(4), 9).unwrap();
    assert_eq!(shape(&leaf), vec![(0, 0, 2), (2, 0, 2)]);
    leaf.delete(Some(4), Some(4), 9).unwrap();
    assert_eq!(shape(&leaf), vec![(0, 0, 2), (2, 0, 2)]);
}

#[test]
fn push_child_splits_a_full_leaf() {
    let mut leaf = LeafNode::new(4, 2);
    leaf.next = Some(11);
    for c in 0..MAX_CHILDREN as u64 {
        leaf.push_child(span(c, 0, 1, None), 7).unwrap();
    }
    assert_eq!(leaf.children().len(), MAX_CHILDREN);
    let new = leaf.push_child(span(100, 0, 1, None), 7).unwrap_err();
    assert_eq!(leaf.children().len(), MAX_CHILDREN + 1 - MIN_CHILDREN);
    assert_eq!(new.children().len(), MIN_CHILDREN);
    assert_eq!(leaf.cache + new.cache, MAX_CHILDREN + 1);
    assert_eq!(leaf.next(), Some(7));
    assert_eq!(new.prev(), Some(4));
    assert_eq!(new.next(), Some(11));
    assert_eq!(new.key, 7);
    assert_eq!(new.parent, 2);
    assert_eq!(new.children().last().unwrap().id, ID::new(100, 0));
    assert!(leaf.check() && new.check());
}

#[test]
fn dirty_insert_into_full_leaf_splits() {
    let mut leaf = LeafNode::new(0, 0);
    for c in 0..MAX_CHILDREN as u64 {
        leaf.push_child(span(c, 0, 2, None), 5).unwrap();
    }
    let new = leaf.insert(1, span(99, 0, 1, None), 5).unwrap_err();
    assert_eq!(leaf.children().len() + new.children().len(), MAX_CHILDREN + 2);
    assert!(leaf.children().len() >= MIN_CHILDREN && new.children().len() >= MIN_CHILDREN);
    assert_eq!(shape(&leaf)[..3].to_vec(), vec![(0, 0, 1), (99, 0, 1), (0, 1, 1)]);
    assert_eq!(leaf.cache + new.cache, 2 * MAX_CHILDREN + 1);
}

#[test]
fn delete_inside_item_of_full_leaf_splits() {
    let mut leaf = LeafNode::new(0, 0);
    for c in 0..MAX_CHILDREN as u64 {
        leaf.push_child(span(c, 0, 3, None), 5).unwrap();
    }
    let new = leaf.delete(Some(1), Some(2), 5).unwrap_err();
    assert_eq!(leaf.children().len() + new.children().len(), MAX_CHILDREN + 1);
    assert_eq!(leaf.cache + new.cache, 3 * MAX_CHILDREN - 1);
    assert_eq!(shape(&leaf)[..2].to_vec(), vec![(0, 0, 1), (0, 2, 1)]);
}

#[test]
fn check_detects_stale_cache() {
    let mut leaf = LeafNode::new(0, 0);
    leaf.push_child(span(1, 0, 3, None), 5).unwrap();
    assert!(leaf.check());
    leaf.cache = 2;
    assert!(!leaf.check());
}

use loro_core::y_span::StatusChange;

/// The visible text of the leaf, reading each client's characters from `texts`.
fn visible_text(leaf: &LeafNode, texts: &[(u64, &str)]) -> String {
    let mut out = String::new();
    for x in leaf.children() {
        if !x.status.is_visible() {
            continue;
        }
        let text = texts.iter().find(|t| t.0 == x.id.client_id).unwrap().1;
        let start = x.id.counter as usize;
        out.push_str(&text[start..start + x.len as usize]);
    }
    out
}

#[test]
fn tombstone_then_insert_between() {
    let texts = [(1u64, "foo"), (2u64, "X")];
    let mut leaf = LeafNode::new(0, 0);
    leaf.insert(0, span(1, 0, 3, None), 9).unwrap();
    leaf.update_status(1, 2, StatusChange::Delete, 9).unwrap();
    assert_eq!(shape(&leaf), vec![(1, 0, 1), (1, 1, 1), (1, 2, 1)]);
    assert_eq!(visible_text(&leaf, &texts), "fo");
    let x = YSpan {
        origin_left: Some(ID::new(1, 0)),
        origin_right: Some(ID::new(1, 1)),
        id: ID::new(2, 0),
        len: 1,
        status: Status::new(),
    };
    leaf.insert(1, x, 9).unwrap();
    assert_eq!(visible_text(&leaf, &texts), "fXo");
    let visible = leaf.children().iter().filter(|x| x.status.is_visible()).count();
    let tombstones = leaf.children().iter().filter(|x| !x.status.is_visible()).count();
    assert_eq!(visible, 3);
    assert_eq!(tombstones, 1);
    assert_eq!(leaf.cache, 4);
}

#[test]
fn deleting_a_range_twice_counts_both() {
    let texts = [(1u64, "hello world")];
    let mut leaf = LeafNode::new(0, 0);
    leaf.insert(0, span(1, 0, 11, None), 9).unwrap();
    leaf.update_status(0, 5, StatusChange::Delete, 9).unwrap();
    let once = visible_text(&leaf, &texts);
    leaf.update_status(0, 5, StatusChange::Delete, 9).unwrap();
    assert_eq!(visible_text(&leaf, &texts), once);
    assert_eq!(once, " world");
    assert_eq!(leaf.children()[0].status.delete_times, 2);
    assert_eq!(leaf.children()[0].len, 5);
    assert_eq!(leaf.children()[1].status.delete_times, 0);
    assert_eq!(leaf.cache, 11);
}

#[test]
fn undo_makes_deleted_text_visible_again() {
    let texts = [(1u64, "hello world")];
    let mut leaf = LeafNode::new(0, 0);
    leaf.insert(0, span(1, 0, 11, None), 9).unwrap();
    leaf.update_status(6, 11, StatusChange::Delete, 9).unwrap();
    assert_eq!(visible_text(&leaf, &texts), "hello ");
    leaf.update_status(6, 11, StatusChange::Undo, 9).unwrap();
    assert_eq!(visible_text(&leaf, &texts), "hello world");
    assert_eq!(shape(&leaf), vec![(1, 0, 6), (1, 6, 5)]);
}

#[test]
fn update_status_of_empty_range_changes_nothing() {
    let mut leaf = LeafNode::new(0, 0);
    leaf.insert(0, span(1, 0, 4, None), 9).unwrap();
    leaf.update_status(2, 2, StatusChange::Delete, 9).unwrap();
    assert!(leaf.children().iter().all(|x| x.status.is_visible()));
    assert_eq!(leaf.cache, 4);
}

#[test]
fn update_status_inside_item_of_full_leaf_splits() {
    let mut leaf = LeafNode::new(0, 0);
    for c in 0..MAX_CHILDREN as u64 {
        leaf.push_child(span(c, 0, 3, None), 5).unwrap();
    }
    let new = leaf.update_status(1, 2, StatusChange::Delete, 5).unwrap_err();
    assert_eq!(leaf.children().len() + new.children().len(), MAX_CHILDREN + 2);
    assert_eq!(leaf.cache + new.cache, 3 * MAX_CHILDREN);
    assert_eq!(shape(&leaf)[..3].to_vec(), vec![(0, 0, 1), (0, 1, 1), (0, 2, 1)]);
    assert!(!leaf.children()[1].status.is_visible());
    assert!(leaf.check() && new.check());
}

#[test]
fn find_id_gives_position_of_piece() {
    let mut leaf = LeafNode::new(0, 0);
    leaf.push_child(span(1, 10, 3, None), 9).unwrap();
    leaf.push_child(span(2, 0, 4, None), 9).unwrap();
    assert_eq!(leaf.find_id(ID::new(1, 10)), Some(0));
    assert_eq!(leaf.find_id(ID::new(1, 12)), Some(2));
    assert_eq!(leaf.find_id(ID::new(2, 3)), Some(6));
    assert_eq!(leaf.find_id(ID::new(1, 13)), None);
    assert_eq!(leaf.find_id(ID::new(3, 0)), None);
}

#[test]
fn scan_range_between_anchors() {
    let mut leaf = LeafNode::new(0, 0);
    leaf.push_child(span(1, 0, 3, None), 9).unwrap();
    leaf.push_child(span(2, 0, 4, None), 9).unwrap();
    assert_eq!(leaf.scan_range(None, None), Some((0, 7)));
    assert_eq!(leaf.scan_range(Some(ID::new(1, 1)), Some(ID::new(2, 2))), Some((2, 5)));
    assert_eq!(leaf.scan_range(Some(ID::new(2, 3)), None), Some((7, 7)));
    assert_eq!(leaf.scan_range(None, Some(ID::new(1, 0))), Some((0, 0)));
    assert_eq!(leaf.scan_range(Some(ID::new(9, 0)), None), None);
    assert_eq!(leaf.scan_range(None, Some(ID::new(2, 4))), None);
}

#[test]
fn insert_after_id_places_after_anchor() {
    let mut leaf = LeafNode::new(0, 0);
    leaf.push_child(span(1, 0, 3, None), 9).unwrap();
    leaf.insert_after_id(Some(ID::new(1, 0)), span(2, 0, 2, Some(ID::new(1, 0))), 9).unwrap();
    assert_eq!(shape(&leaf), vec![(1, 0, 1), (2, 0, 2), (1, 1, 2)]);
    leaf.insert_after_id(None, span(3, 0, 1, None), 9).unwrap();
    assert_eq!(shape(&leaf)[0], (3, 0, 1));
    leaf.insert_after_id(Some(ID::new(1, 2)), span(1, 3, 1, Some(ID::new(1, 2))), 9).unwrap();
    assert_eq!(shape(&leaf).last().copied(), Some((1, 1, 3)));
    assert_eq!(leaf.cache, 7);
}

use loro_core::id::IdSpan;

#[test]
fn get_id_spans_skips_deleted_text() {
    let mut leaf = LeafNode::new(0, 0);
    leaf.push_child(span(1, 0, 5, None), 9).unwrap();
    leaf.push_child(span(2, 0, 4, None), 9).unwrap();
    leaf.update_status(3, 6, StatusChange::Delete, 9).unwrap();
    // visible: (1,0) (1,1) (1,2) (2,1) (2,2) (2,3)
    let spans = leaf.get_id_spans(1, 4);
    assert_eq!(
        spans,
        vec![
            IdSpan { client_id: 1, counter_start: 1, counter_end: 3 },
            IdSpan { client_id: 2, counter_start: 1, counter_end: 3 },
        ]
    );
    assert!(leaf.get_id_spans(2, 0).is_empty());
}

#[test]
fn deletion_by_ids_reaches_the_other_replica() {
    let texts = [(1u64, "hello world")];
    let mut a = LeafNode::new(0, 0);
    let mut b = LeafNode::new(0, 0);
    a.insert(0, span(1, 0, 11, None), 9).unwrap();
    b.insert(0, span(1, 0, 11, None), 9).unwrap();
    let spans = a.get_id_spans(6, 5);
    assert_eq!(spans, vec![IdSpan { client_id: 1, counter_start: 6, counter_end: 11 }]);
    a.update_status(6, 11, StatusChange::Delete, 9).unwrap();
    assert_eq!(visible_text(&a, &texts), "hello ");
    for s in &spans {
        let start = b.find_id(ID::new(s.client_id, s.counter_start)).unwrap();
        let len = (s.counter_end - s.counter_start) as usize;
        b.update_status(start, start + len, StatusChange::Delete, 9).unwrap();
    }
    assert_eq!(visible_text(&b, &texts), "hello ");
}

#[test]
fn delete_on_empty_leaf_with_bounds_is_a_no_op() {
    let mut leaf = LeafNode::new(0, 0);
    assert!(leaf.delete(Some(0), Some(0), 9).is_ok());
    assert!(leaf.delete(Some(0), None, 9).is_ok());
    assert!(leaf.children().is_empty());
    assert_eq!(leaf.cache, 0);
    assert_eq!(leaf.visible_cache, 0);
}

#[test]
fn visible_cache_counts_only_visible_text() {
    let mut leaf = LeafNode::new(0, 0);
    leaf.insert(0, span(1, 0, 11, None), 9).unwrap();
    assert_eq!(leaf.visible_cache, 11);
    leaf.update_status(6, 11, StatusChange::Delete, 9).unwrap();
    assert_eq!(leaf.cache, 11);
    assert_eq!(leaf.visible_cache, 6);
    leaf.delete(Some(4), Some(8), 9).unwrap();
    assert_eq!(leaf.cache, 7);
    assert_eq!(leaf.visible_cache, 4);
    assert!(leaf.check());
    leaf.visible_cache = 5;
    assert!(!leaf.check());
}

#[test]
fn full_leaf_does_not_split_when_nothing_overflows() {
    let mut leaf = LeafNode::new(0, 0);
    for c in 0..MAX_CHILDREN as u64 {
        leaf.push_child(span(c, 0, 3, None), 5).unwrap();
    }
    let last = (MAX_CHILDREN - 1) as u64;
    assert!(leaf.push_child(span(last, 3, 1, Some(ID::new(last, 2))), 5).is_ok());
    assert_eq!(leaf.children().len(), MAX_CHILDREN);
    assert!(leaf.insert(3, span(0, 3, 2, Some(ID::new(0, 2))), 5).is_ok());
    assert_eq!(leaf.children().len(), MAX_CHILDREN);
    assert_eq!(shape(&leaf)[0], (0, 0, 5));
    assert!(leaf.delete(Some(1), Some(7), 5).is_ok());
    assert!(leaf.delete(Some(2), Some(4), 5).is_ok());
    assert!(leaf.check());
}

#[test]
fn insert_at_clean_cut_of_full_leaf_splits() {
    let mut leaf = LeafNode::new(0, 0);
    for c in 0..MAX_CHILDREN as u64 {
        leaf.push_child(span(c, 0, 1, None), 5).unwrap();
    }
    let new = leaf.insert(2, span(99, 0, 1, None), 5).unwrap_err();
    assert_eq!(leaf.children().len(), MAX_CHILDREN + 1 - MIN_CHILDREN);
    assert_eq!(new.children().len(), MIN_CHILDREN);
    assert_eq!(shape(&leaf)[2], (99, 0, 1));
}
