use std::cmp::Ordering;

use vstd::prelude::*;

use crate::id::ID;
use crate::leaf::{expand, items_ok, total_len};
use crate::op_span_set::OpSpanSet;
use crate::rle_vec::{lemma_compact_canonical, RleVec};
use crate::version_vector::VersionVector;
use crate::y_span::YSpan;

verus! {

/// End of `client` in a version vector that had `cur` for it, once `op` is
/// recorded.
pub open spec fn end_after(cur: int, client: u64, op: YSpan) -> int {
    if client == op.id.client_id && cur < op.end() {
        op.end()
    } else {
        cur
    }
}

/// Recording an operation a second time leaves every end as the first time
/// did.
pub proof fn lemma_advance_idempotent(cur: int, client: u64, op: YSpan)
    ensures
        end_after(end_after(cur, client, op), client, op) == end_after(cur, client, op),
{
}

/// The ends reached by recording two operations do not depend on their order.
pub proof fn lemma_advance_commutes(cur: int, client: u64, a: YSpan, b: YSpan)
    ensures
        end_after(end_after(cur, client, a), client, b) == end_after(
            end_after(cur, client, b),
            client,
            a,
        ),
{
}

/// The YATA rules that concern one span: its identity, its anchors, the
/// order of concurrent spans, and when it can be placed.
pub struct YataImpl;

/// Bound on generated runs: an insertion is at most this long, a deletion
/// shorter.
pub const GEN_SPAN: usize = 10;

impl YataImpl {
    pub fn id(op: &YSpan) -> (r: ID)
        ensures
            r == op.id,
    {
        op.id
    }

    /// Order of two concurrent spans with the same anchors: by client.
    pub fn cmp_id(op_a: &YSpan, op_b: &YSpan) -> (r: Ordering)
        ensures
            op_a.id.client_id < op_b.id.client_id ==> r == Ordering::Less,
            op_a.id.client_id == op_b.id.client_id ==> r == Ordering::Equal,
            op_a.id.client_id > op_b.id.client_id ==> r == Ordering::Greater,
    {
        if op_a.id.client_id < op_b.id.client_id {
            Ordering::Less
        } else if op_a.id.client_id == op_b.id.client_id {
            Ordering::Equal
        } else {
            Ordering::Greater
        }
    }

    /// Whether `id` is one of the identifiers of `op`.
    pub fn contains(op: &YSpan, id: ID) -> (r: bool)
        ensures
            r == op.id.spec_contains(op.len as int, id),
    {
        op.contains_id(id)
    }

    pub open spec fn anchor_known(known: Set<ID>, anchor: Option<ID>) -> bool {
        match anchor {
            Some(a) => known.contains(a),
            None => true,
        }
    }

    /// A span can be placed once both of its anchors are known.
    pub fn can_integrate(known: &OpSpanSet, op: &YSpan) -> (r: bool)
        ensures
            r == (Self::anchor_known(known@, op.origin_left) && Self::anchor_known(
                known@,
                op.origin_right,
            )),
    {
        if let Some(value) = op.origin_left {
            if !known.contain(value) {
                return false;
            }
        }
        if let Some(value) = op.origin_right {
            if !known.contain(value) {
                return false;
            }
        }
        true
    }

    pub fn left_origin(op: &YSpan) -> (r: Option<ID>)
        ensures
            r == op.origin_left,
    {
        op.origin_left
    }

    pub fn right_origin(op: &YSpan) -> (r: Option<ID>)
        ensures
            r == op.origin_right,
    {
        op.origin_right
    }

    /// Records `op` as known: its client's end rises to the end of `op`,
    /// and no end goes down.
    pub fn advance_version(vv: &mut VersionVector, op: &YSpan)
        requires
            op.valid(),
        ensures
            forall|c: u64| #[trigger] final(vv).end_of(c) == end_after(old(vv).end_of(c), c, *op),
            forall|c: u64| old(vv).end_of(c) <= #[trigger] final(vv).end_of(c),
    {
        let end = ID::new(op.id.client_id, op.id.counter + op.len);
        vv.set_end(end);
    }

    /// Whether two documents hold the same spans once runs are merged, that
    /// is, the same pieces in the same order.
    pub fn is_content_eq(a: &[YSpan], b: &[YSpan]) -> (r: bool)
        requires
            items_ok(a@),
            items_ok(b@),
            total_len(a@) <= usize::MAX,
            total_len(b@) <= usize::MAX,
        ensures
            r == (expand(a@) == expand(b@)),
    {
        let aa = RleVec::from_spans(a);
        let bb = RleVec::from_spans(b);
        let r = aa.same_spans(&bb);
        proof {
            if expand(a@) == expand(b@) {
                lemma_compact_canonical(aa@, bb@);
            }
        }
        r
    }

    /// Position and length of a generated insertion into a document of
    /// `content_len` items, drawn from `pos`.
    pub fn new_op_range(content_len: usize, pos: usize) -> (r: (usize, usize))
        requires
            content_len > 0,
        ensures
            r.0 == pos % content_len,
            r.1 == pos % GEN_SPAN + 1,
    {
        (pos % content_len, pos % GEN_SPAN + 1)
    }

    /// Range of a generated deletion from a document of `content_len`
    /// items, drawn from `pos` and `len`: none where it would be empty.
    pub fn new_del_op_range(content_len: usize, pos: usize, len: usize) -> (r: Option<(usize, usize)>)
        ensures
            content_len == 0 ==> r is None,
            content_len > 0 ==> ({
                let p = pos % content_len;
                let l: int = if len % GEN_SPAN < content_len - p {
                    (len % GEN_SPAN) as int
                } else {
                    content_len - p
                };
                r == if l == 0 {
                    None
                } else {
                    Some((p, l as usize))
                }
            }),
    {
        if content_len == 0 {
            return None;
        }
        let pos = pos % content_len;
        let rest = content_len - pos;
        let len = if len % GEN_SPAN < rest {
            len % GEN_SPAN
        } else {
            rest
        };
        if len == 0 {
            return None;
        }
        Some((pos, len))
    }
}

} // verus!
