use vstd::prelude::*;

use crate::id::{opt_id_eq, ID};

verus! {

/// Deletion state of a span. A span is visible when it has been applied and
/// every deletion of it has been undone.
#[derive(Clone, Copy, Debug, PartialEq, Eq, Structural)]
pub struct Status {
    pub unapplied: bool,
    pub delete_times: u16,
    pub undo_times: u16,
}

impl Status {
    pub fn new() -> (r: Status)
        ensures
            !r.unapplied,
            r.delete_times == 0,
            r.undo_times == 0,
    {
        Status { unapplied: false, delete_times: 0, undo_times: 0 }
    }

    /// Applies `change`; a counter at the top of its range stays there.
    pub fn apply(&mut self, change: StatusChange)
        ensures
            *final(self) == changed(*old(self), change),
    {
        match change {
            StatusChange::Delete => {
                if self.delete_times < u16::MAX {
                    self.delete_times = self.delete_times + 1;
                }
            },
            StatusChange::Undo => {
                if self.undo_times < u16::MAX {
                    self.undo_times = self.undo_times + 1;
                }
            },
        }
    }

    pub open spec fn spec_is_visible(self) -> bool {
        !self.unapplied && self.delete_times == self.undo_times
    }

    pub fn is_visible(&self) -> (r: bool)
        ensures
            r == self.spec_is_visible(),
    {
        !self.unapplied && self.delete_times == self.undo_times
    }
}

/// A change to the deletion state of a span.
#[derive(Clone, Copy, Debug, PartialEq, Eq, Structural)]
pub enum StatusChange {
    /// One more deletion.
    Delete,
    /// One more undone deletion.
    Undo,
}

/// `n + 1`, held at the top of the range of `u16`.
pub open spec fn bump(n: u16) -> u16 {
    if n < u16::MAX {
        (n + 1) as u16
    } else {
        n
    }
}

/// `st` after `change`.
pub open spec fn changed(st: Status, change: StatusChange) -> Status {
    match change {
        StatusChange::Delete => Status { delete_times: bump(st.delete_times), ..st },
        StatusChange::Undo => Status { undo_times: bump(st.undo_times), ..st },
    }
}

/// `x` with its status changed.
pub open spec fn with_change(x: YSpan, change: StatusChange) -> YSpan {
    YSpan { status: changed(x.status, change), ..x }
}

/// Kind of content an operation inserts.
#[derive(Clone, Copy, Debug, PartialEq, Eq, Structural)]
pub enum ContentType {
    Text,
    Container,
    List,
}

/// A run of characters inserted by one client with consecutive counters,
/// together with the anchors it was inserted between.
#[derive(Clone, Copy, Debug, PartialEq, Eq, Structural)]
pub struct YSpan {
    pub origin_left: Option<ID>,
    pub origin_right: Option<ID>,
    pub id: ID,
    pub len: u32,
    pub status: Status,
}

/// The span of identifiers `[x.id + from, x.id + to)`. A right part takes as
/// left anchor the identifier just before it.
pub open spec fn slice_of(x: YSpan, from: int, to: int) -> YSpan {
    if from == 0 {
        YSpan { len: to as u32, ..x }
    } else {
        YSpan {
            origin_left: Some(ID { client_id: x.id.client_id, counter: (x.id.counter + from - 1) as u32 }),
            origin_right: x.origin_right,
            id: ID { client_id: x.id.client_id, counter: (x.id.counter + from) as u32 },
            len: (to - from) as u32,
            status: x.status,
        }
    }
}

/// The span that `a` followed by `b` make together.
pub open spec fn merged(a: YSpan, b: YSpan) -> YSpan {
    YSpan { origin_right: b.origin_right, len: (a.len + b.len) as u32, ..a }
}

impl YSpan {
    /// Counter one past the last identifier of the span.
    pub open spec fn end(self) -> int {
        self.id.counter + self.len
    }

    /// The identifier just past the span can be written as an `ID`.
    pub open spec fn valid(self) -> bool {
        self.end() <= u32::MAX
    }

    /// `other` continues `self`: same client, consecutive counters, anchored
    /// on the last identifier of `self`, same right anchor and status.
    pub open spec fn mergeable(self, other: YSpan) -> bool {
        &&& other.id.client_id == self.id.client_id
        &&& other.id.counter == self.end()
        &&& other.origin_left is Some
        &&& other.origin_left->0.client_id == self.id.client_id
        &&& other.origin_left->0.counter + 1 == self.end()
        &&& self.origin_right == other.origin_right
        &&& self.status == other.status
    }

    pub fn is_mergable(&self, other: &YSpan) -> (r: bool)
        ensures
            r == self.mergeable(*other),
    {
        let end: u64 = self.id.counter as u64 + self.len as u64;
        if other.id.client_id != self.id.client_id || other.id.counter as u64 != end {
            return false;
        }
        let left_ok = match other.origin_left {
            Some(l) => l.client_id == self.id.client_id && l.counter as u64 + 1 == end,
            None => false,
        };
        left_ok && opt_id_eq(&self.origin_right, &other.origin_right) && self.status == other.status
    }

    /// Appends `other`, which continues `self`.
    pub fn merge(&mut self, other: &YSpan)
        requires
            old(self).mergeable(*other),
            other.valid(),
        ensures
            *final(self) == merged(*old(self), *other),
            final(self).valid(),
    {
        self.origin_right = other.origin_right;
        self.len = self.len + other.len;
    }

    /// The part `[from, to)` of the span.
    pub fn slice(&self, from: usize, to: usize) -> (r: YSpan)
        requires
            from <= to <= self.len,
            self.valid(),
        ensures
            r == slice_of(*self, from as int, to as int),
            r.valid(),
    {
        if from == 0 {
            YSpan {
                origin_left: self.origin_left,
                origin_right: self.origin_right,
                id: self.id,
                len: to as u32,
                status: self.status,
            }
        } else {
            YSpan {
                origin_left: Some(ID::new(self.id.client_id, self.id.counter + (from - 1) as u32)),
                origin_right: self.origin_right,
                id: ID::new(self.id.client_id, self.id.counter + from as u32),
                len: (to - from) as u32,
                status: self.status,
            }
        }
    }

    pub fn len(&self) -> (r: usize)
        ensures
            r == self.len,
    {
        self.len as usize
    }

    /// Spans carry text.
    pub fn content_type(&self) -> (r: ContentType)
        ensures
            r == ContentType::Text,
    {
        ContentType::Text
    }

    /// Whether `id` is one of the span's identifiers.
    pub fn contains_id(&self, id: ID) -> (r: bool)
        ensures
            r == self.id.spec_contains(self.len as int, id),
    {
        self.id.contains(self.len, id)
    }
}

/// Slicing yields exactly the requested length, and slicing a slice is the
/// slice of the whole over the composed range.
pub proof fn lemma_slice_len_and_compose(x: YSpan, a: int, b: int, c: int, d: int)
    requires
        x.valid(),
        0 <= a <= b <= x.len,
        0 <= c <= d <= b - a,
    ensures
        slice_of(x, a, b).len == b - a,
        slice_of(x, a, b).valid(),
        slice_of(slice_of(x, a, b), c, d) == slice_of(x, a + c, a + d),
{
}

/// A slice of a slice taken from its start is the slice over the shorter
/// range: `slice(slice(x, a, c), 0, b - a) = slice(x, a, b)`.
pub proof fn lemma_slice_prefix(x: YSpan, a: int, b: int, c: int)
    requires
        x.valid(),
        0 <= a <= b <= c <= x.len,
    ensures
        slice_of(slice_of(x, a, c), 0, b - a) == slice_of(x, a, b),
        slice_of(x, a, b).len == b - a,
{
    lemma_slice_len_and_compose(x, a, c, 0, b - a);
}

/// Cutting a span in two and merging the halves gives the span back.
pub proof fn lemma_split_then_merge(x: YSpan, k: int)
    requires
        x.valid(),
        0 < k < x.len,
    ensures
        slice_of(x, 0, k).mergeable(slice_of(x, k, x.len as int)),
        merged(slice_of(x, 0, k), slice_of(x, k, x.len as int)) == x,
{
}


/// The span as its single-identifier pieces, in order.
pub open spec fn units(x: YSpan) -> Seq<YSpan> {
    Seq::new(x.len as nat, |k: int| slice_of(x, k, k + 1))
}

/// The pieces of a slice are the pieces of the span over the same range.
pub proof fn lemma_units_of_slice(x: YSpan, a: int, b: int)
    requires
        x.valid(),
        0 <= a <= b <= x.len,
    ensures
        units(slice_of(x, a, b)) == units(x).subrange(a, b),
{
    assert forall|k: int| 0 <= k < b - a implies #[trigger] units(slice_of(x, a, b))[k] == units(x).subrange(a, b)[k] by {
        lemma_slice_len_and_compose(x, a, b, k, k + 1);
    }
    assert(units(slice_of(x, a, b)) =~= units(x).subrange(a, b));
}

/// Changing the status of a span changes the status of each of its pieces.
pub proof fn lemma_units_of_change(x: YSpan, change: StatusChange)
    ensures
        units(with_change(x, change)) == units(x).map_values(|u: YSpan| with_change(u, change)),
{
    assert(units(with_change(x, change)) =~= units(x).map_values(|u: YSpan| with_change(u, change)));
}

/// Merging two spans concatenates their pieces.
pub proof fn lemma_units_of_merge(a: YSpan, b: YSpan)
    requires
        a.mergeable(b),
        a.len >= 1,
        b.valid(),
    ensures
        units(merged(a, b)) == units(a) + units(b),
{
    let m = merged(a, b);
    assert(m.len == a.len + b.len);
    assert forall|k: int| 0 <= k < a.len + b.len implies #[trigger] units(m)[k] == (units(a) + units(b))[k] by {
        if k < a.len {
            assert(units(m)[k] == slice_of(m, k, k + 1));
            assert((units(a) + units(b))[k] == slice_of(a, k, k + 1));
            if k == 0 {
                assert(slice_of(m, 0, 1) == slice_of(a, 0, 1));
            }
        } else {
            assert(units(m)[k] == slice_of(m, k, k + 1));
            assert((units(a) + units(b))[k] == slice_of(b, k - a.len, k - a.len + 1));
            let j = k - a.len;
            if j == 0 {
                assert(b.origin_left == Some(ID { client_id: a.id.client_id, counter: (a.id.counter + k - 1) as u32 }));
                assert(b.id == ID { client_id: a.id.client_id, counter: (a.id.counter + k) as u32 });
                assert(slice_of(m, k, k + 1) == slice_of(b, 0, 1));
            } else {
                assert(b.id.client_id == a.id.client_id);
                assert(slice_of(m, k, k + 1) == slice_of(b, j, j + 1));
            }
        }
    }
    assert(units(m) =~= units(a) + units(b));
}

} // verus!
