use loro_core::id::ID;
use loro_core::rle_vec::RleVec;
use loro_core::y_span::{ContentType, Status, YSpan};

fn span(origin_left: Option<ID>, origin_right: Option<ID>, id: ID, len: u32) -> YSpan {
    YSpan { origin_left, origin_right, id, len, status: Status::new() }
}

#[test]
fn test_merge() {
    let mut vec = RleVec::new();
    vec.push(span(Some(ID::new(0, 0)), None, ID::new(0, 1), 1));
    vec.push(span(Some(ID::new(0, 1)), None, ID::new(0, 2), 1));
    assert_eq!(vec.merged_len(), 1);
    let merged = vec.get_merged(0).unwrap();
    assert_eq!(merged.content_type(), ContentType::Text);
    assert_eq!(merged.len, 2);
}

#[test]
fn slice() {
    let mut vec = RleVec::new();
    vec.push(span(Some(ID::new(0, 0)), None, ID::new(0, 1), 4));
    vec.push(span(Some(ID::new(0, 0)), Some(ID::new(0, 1)), ID::new(0, 5), 4));
    assert_eq!(vec.merged_len(), 2);
    assert_eq!(
        vec.slice_iter(2, 6).iter().map(|x| x.len as usize).collect::<Vec<usize>>(),
        vec![2, 2]
    )
}

#[test]
fn slice_keeps_anchors_of_left_part() {
    let x = span(Some(ID::new(1, 3)), Some(ID::new(2, 9)), ID::new(7, 10), 5);
    let left = x.slice(0, 2);
    assert_eq!(left.len(), 2);
    assert_eq!(left.id, ID::new(7, 10));
    assert_eq!(left.origin_left, Some(ID::new(1, 3)));
    assert_eq!(left.origin_right, Some(ID::new(2, 9)));
}

#[test]
fn slice_right_part_anchors_on_left_part() {
    let x = span(Some(ID::new(1, 3)), Some(ID::new(2, 9)), ID::new(7, 10), 5);
    let right = x.slice(2, 5);
    assert_eq!(right.len(), 3);
    assert_eq!(right.id, ID::new(7, 12));
    assert_eq!(right.origin_left, Some(ID::new(7, 11)));
    assert_eq!(right.origin_right, Some(ID::new(2, 9)));
}

#[test]
fn slice_of_slice_is_slice() {
    let x = span(None, None, ID::new(3, 0), 8);
    for a in 0..=8usize {
        for c in a..=8usize {
            for b in a..=c {
                let inner = x.slice(a, c);
                assert_eq!(inner.slice(0, b - a), x.slice(a, b));
                assert_eq!(x.slice(a, b).len(), b - a);
            }
        }
    }
}

#[test]
fn split_then_merge_is_identity() {
    let x = span(Some(ID::new(0, 4)), Some(ID::new(1, 1)), ID::new(2, 20), 6);
    for k in 1..6usize {
        let mut left = x.slice(0, k);
        let right = x.slice(k, 6);
        assert!(left.is_mergable(&right));
        left.merge(&right);
        assert_eq!(left, x);
    }
}

#[test]
fn not_mergeable_when_status_differs() {
    let a = span(None, None, ID::new(0, 0), 2);
    let mut b = span(Some(ID::new(0, 1)), None, ID::new(0, 2), 2);
    assert!(a.is_mergable(&b));
    b.status.delete_times = 1;
    assert!(!a.is_mergable(&b));
}

#[test]
fn not_mergeable_across_clients_or_gaps() {
    let a = span(None, None, ID::new(0, 0), 2);
    let other_client = span(Some(ID::new(0, 1)), None, ID::new(1, 2), 2);
    let gap = span(Some(ID::new(0, 1)), None, ID::new(0, 3), 2);
    let wrong_anchor = span(Some(ID::new(0, 0)), None, ID::new(0, 2), 2);
    assert!(!a.is_mergable(&other_client));
    assert!(!a.is_mergable(&gap));
    assert!(!a.is_mergable(&wrong_anchor));
}

#[test]
fn status_visibility() {
    let mut s = Status::new();
    assert!(s.is_visible());
    s.delete_times = 1;
    assert!(!s.is_visible());
    s.undo_times = 1;
    assert!(s.is_visible());
    s.unapplied = true;
    assert!(!s.is_visible());
}

#[test]
fn rle_vec_keeps_runs_merged() {
    let mut vec = RleVec::new();
    for i in 0..10u32 {
        let left = if i == 0 { None } else { Some(ID::new(4, i - 1)) };
        vec.push(span(left, None, ID::new(4, i), 1));
    }
    assert_eq!(vec.merged_len(), 1);
    assert_eq!(vec.len(), 10);
    assert!(vec.get_merged(1).is_none());
}

#[test]
fn rle_vec_from_cut_spans_is_merged() {
    let x = span(None, None, ID::new(5, 0), 6);
    let pieces = vec![x.slice(0, 2), x.slice(2, 3), x.slice(3, 6)];
    let vec = RleVec::from_spans(&pieces);
    assert_eq!(vec.merged_len(), 1);
    assert_eq!(vec.get_merged(0), Some(x));
    let other = RleVec::from_spans(&[x]);
    assert!(vec.same_spans(&other));
}

#[test]
fn slice_iter_whole_and_empty_ranges() {
    let mut vec = RleVec::new();
    vec.push(span(None, None, ID::new(0, 0), 3));
    vec.push(span(None, None, ID::new(1, 0), 2));
    let all = vec.slice_iter(0, 5);
    assert_eq!(all.len(), 2);
    assert_eq!(all[0].len, 3);
    assert_eq!(all[1].len, 2);
    assert!(vec.slice_iter(3, 3).is_empty());
    let tail = vec.slice_iter(1, 4);
    assert_eq!(tail[0].id, ID::new(0, 1));
    assert_eq!(tail[0].origin_left, Some(ID::new(0, 0)));
    assert_eq!(tail[1].len, 1);
}
