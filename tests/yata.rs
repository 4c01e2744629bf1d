use std::cmp::Ordering;

use loro_core::id::ID;
use loro_core::op_span_set::OpSpanSet;
use loro_core::version_vector::VersionVector;
use loro_core::y_span::{Status, YSpan};
use loro_core::yata::YataImpl;

#[test]
fn test() {
    let mut set = OpSpanSet::default();
    set.insert(&YSpan {
        id: ID::new(1, 10),
        len: 10,
        origin_left: Some(ID::new(0, 1)),
        origin_right: Some(ID::new(0, 2)),
        status: Status::new(),
    });
    assert!(set.contain(ID::new(1, 10)));
    assert!(set.contain(ID::new(1, 11)));
    assert!(set.contain(ID::new(1, 18)));
    assert!(set.contain(ID::new(1, 19)));

    assert!(!set.contain(ID::new(1, 8)));
    assert!(!set.contain(ID::new(1, 9)));
    assert!(!set.contain(ID::new(1, 20)));
    assert!(!set.contain(ID::new(1, 21)));
}

fn op(client: u64, counter: u32, len: u32, left: Option<ID>, right: Option<ID>) -> YSpan {
    YSpan { origin_left: left, origin_right: right, id: ID::new(client, counter), len, status: Status::new() }
}

#[test]
fn op_span_set_clear_and_other_client() {
    let mut set = OpSpanSet::new();
    set.insert(&op(1, 0, 3, None, None));
    assert!(!set.contain(ID::new(2, 0)));
    assert!(set.contain(ID::new(1, 2)));
    set.clear();
    assert!(!set.contain(ID::new(1, 2)));
}

#[test]
fn can_integrate_waits_for_unknown_anchor() {
    let mut known = OpSpanSet::new();
    let first = op(1, 0, 3, None, None);
    let second = op(2, 0, 2, Some(ID::new(1, 2)), None);
    assert!(YataImpl::can_integrate(&known, &first));
    assert!(!YataImpl::can_integrate(&known, &second));
    known.insert(&first);
    assert!(YataImpl::can_integrate(&known, &second));
    let third = op(3, 0, 1, Some(ID::new(1, 0)), Some(ID::new(2, 1)));
    assert!(!YataImpl::can_integrate(&known, &third));
    known.insert(&second);
    assert!(YataImpl::can_integrate(&known, &third));
}

#[test]
fn cmp_id_orders_by_client() {
    let a = op(1, 5, 1, None, None);
    let b = op(2, 0, 1, None, None);
    assert_eq!(YataImpl::cmp_id(&a, &b), Ordering::Less);
    assert_eq!(YataImpl::cmp_id(&b, &a), Ordering::Greater);
    assert_eq!(YataImpl::cmp_id(&a, &a), Ordering::Equal);
}

#[test]
fn contains_and_origins() {
    let a = op(1, 5, 3, Some(ID::new(0, 0)), Some(ID::new(0, 9)));
    assert!(YataImpl::contains(&a, ID::new(1, 7)));
    assert!(!YataImpl::contains(&a, ID::new(1, 8)));
    assert!(!YataImpl::contains(&a, ID::new(0, 6)));
    assert_eq!(YataImpl::id(&a), ID::new(1, 5));
    assert_eq!(YataImpl::left_origin(&a), Some(ID::new(0, 0)));
    assert_eq!(YataImpl::right_origin(&a), Some(ID::new(0, 9)));
}

#[test]
fn version_vector_never_goes_down() {
    let mut vv = VersionVector::new();
    assert_eq!(vv.get(7), 0);
    YataImpl::advance_version(&mut vv, &op(7, 0, 5, None, None));
    assert_eq!(vv.get(7), 5);
    assert!(vv.includes(ID::new(7, 4)));
    assert!(!vv.includes(ID::new(7, 5)));
    YataImpl::advance_version(&mut vv, &op(7, 1, 2, None, None));
    assert_eq!(vv.get(7), 5);
    vv.set_end(ID::new(7, 3));
    assert_eq!(vv.get(7), 5);
    vv.set_end(ID::new(7, 9));
    assert_eq!(vv.get(7), 9);
    assert_eq!(vv.get(8), 0);
}

#[test]
fn generated_ranges() {
    assert_eq!(YataImpl::new_op_range(7, 23), (2, 4));
    assert_eq!(YataImpl::new_del_op_range(0, 3, 4), None);
    assert_eq!(YataImpl::new_del_op_range(10, 13, 7), Some((3, 7)));
    assert_eq!(YataImpl::new_del_op_range(10, 8, 9), Some((8, 2)));
    assert_eq!(YataImpl::new_del_op_range(10, 3, 20), None);
}

#[test]
fn content_eq_ignores_how_runs_are_cut() {
    let whole = op(1, 0, 4, None, None);
    let cut = vec![whole.slice(0, 1), whole.slice(1, 3), whole.slice(3, 4)];
    assert!(YataImpl::is_content_eq(&[whole], &cut));
    assert!(YataImpl::is_content_eq(&cut, &[whole]));
    assert!(YataImpl::is_content_eq(&[], &[]));
}

#[test]
fn content_eq_sees_order_status_and_length() {
    let a = op(1, 0, 2, None, None);
    let b = op(2, 0, 2, None, None);
    assert!(!YataImpl::is_content_eq(&[a, b], &[b, a]));
    let mut deleted = a;
    deleted.status.delete_times = 1;
    assert!(!YataImpl::is_content_eq(&[a], &[deleted]));
    assert!(!YataImpl::is_content_eq(&[a], &[a.slice(0, 1)]));
    assert!(!YataImpl::is_content_eq(&[a], &[]));
}

#[test]
fn recording_twice_or_in_another_order_gives_same_set() {
    let a = op(1, 0, 3, None, None);
    let b = op(2, 5, 2, Some(ID::new(1, 2)), None);
    let mut once = OpSpanSet::new();
    once.insert(&a);
    let mut twice = OpSpanSet::new();
    twice.insert(&a);
    twice.insert(&a);
    let mut ab = OpSpanSet::new();
    ab.insert(&a);
    ab.insert(&b);
    let mut ba = OpSpanSet::new();
    ba.insert(&b);
    ba.insert(&a);
    for client in 0..4u64 {
        for counter in 0..10u32 {
            let id = ID::new(client, counter);
            assert_eq!(once.contain(id), twice.contain(id));
            assert_eq!(ab.contain(id), ba.contain(id));
        }
    }
    let mut v1 = VersionVector::new();
    YataImpl::advance_version(&mut v1, &a);
    YataImpl::advance_version(&mut v1, &b);
    let mut v2 = VersionVector::new();
    YataImpl::advance_version(&mut v2, &b);
    YataImpl::advance_version(&mut v2, &a);
    YataImpl::advance_version(&mut v2, &a);
    for client in 0..4u64 {
        assert_eq!(v1.get(client), v2.get(client));
    }
    assert_eq!(v1.get(2), 7);
}
