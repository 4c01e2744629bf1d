use vstd::prelude::*;

use crate::id::{ids_of_spans, IdSpan, ID};

use crate::y_span::{
    lemma_slice_len_and_compose, lemma_units_of_change, lemma_units_of_merge, lemma_units_of_slice, merged,
    slice_of, units, with_change, StatusChange, YSpan,
};

verus! {

/// Most items a leaf holds once an operation has finished.
pub const MAX_CHILDREN: usize = 16;

/// Fewest items of a leaf that a split produces.
pub const MIN_CHILDREN: usize = 8;

/// Where an index falls inside the item that holds it.
#[derive(Clone, Copy, Debug, PartialEq, Eq, Structural)]
pub enum Position {
    Start,
    Middle,
    End,
}

/// Sum of the lengths of the items.
pub open spec fn total_len(s: Seq<YSpan>) -> nat
    decreases s.len(),
{
    if s.len() == 0 {
        0
    } else {
        total_len(s.drop_last()) + s.last().len as nat
    }
}

/// The items cut into single-identifier pieces, in order.
pub open spec fn expand(s: Seq<YSpan>) -> Seq<YSpan>
    decreases s.len(),
{
    if s.len() == 0 {
        Seq::empty()
    } else {
        expand(s.drop_last()) + units(s.last())
    }
}

/// Every item is non-empty and its identifier range is representable.
pub open spec fn items_ok(s: Seq<YSpan>) -> bool {
    forall|i: int| 0 <= i < s.len() ==> (#[trigger] s[i]).len >= 1 && s[i].valid()
}

/// `p` clamped to `[lo, hi]`.
pub open spec fn clamp(p: int, lo: int, hi: int) -> int {
    if p < lo {
        lo
    } else if p > hi {
        hi
    } else {
        p
    }
}

/// The identifiers of a span, in order.
pub open spec fn run_ids(x: YSpan) -> Seq<ID> {
    Seq::new(x.len as nat, |k: int| ID { client_id: x.id.client_id, counter: (x.id.counter + k) as u32 })
}

/// The identifiers of the visible characters, in document order.
pub open spec fn visible_ids(s: Seq<YSpan>) -> Seq<ID>
    decreases s.len(),
{
    if s.len() == 0 {
        Seq::empty()
    } else {
        visible_ids(s.drop_last()) + if s.last().status.spec_is_visible() {
            run_ids(s.last())
        } else {
            Seq::empty()
        }
    }
}

/// `raw` lies at offset `off` of item `k` of `s`. An index on a boundary
/// belongs to the item that starts there, and the total length to the end.
pub open spec fn at_pos(s: Seq<YSpan>, raw: int, k: int, off: int) -> bool {
    &&& 0 <= k <= s.len()
    &&& 0 <= off
    &&& total_len(s.take(k)) + off == raw
    &&& (k < s.len() ==> off < s[k].len)
    &&& (k == s.len() ==> off == 0)
}

/// The items once `value` is inserted at offset `off` of item `k`: at a
/// clean cut it is merged into the item before where it continues it, else
/// placed between the items; at a dirty cut it goes between the two parts
/// of the item.
pub open spec fn inserted_items(s: Seq<YSpan>, k: int, off: int, value: YSpan) -> Seq<YSpan> {
    if off == 0 {
        if k > 0 && s[k - 1].mergeable(value) {
            s.update(k - 1, merged(s[k - 1], value))
        } else {
            s.insert(k, value)
        }
    } else {
        s.take(k) + seq![slice_of(s[k], 0, off), value, slice_of(s[k], off, s[k].len as int)] + s.skip(
            k + 1,
        )
    }
}

/// The items of `l` followed, after a split, by those of the new leaf.
pub open spec fn joined(l: LeafNode, r: Result<(), LeafNode>) -> Seq<YSpan> {
    match r {
        Ok(()) => l.children@,
        Err(n) => l.children@ + n.children@,
    }
}

/// A deletion from `from` removes whole items from `ds` on; where `from`
/// cuts into the item before, `rf` is the length kept of it.
pub open spec fn start_at(s: Seq<YSpan>, from: int, ds: int, rf: Option<usize>) -> bool {
    match rf {
        None => 0 <= ds <= s.len() && total_len(s.take(ds)) == from,
        Some(f) => 1 <= ds <= s.len() && total_len(s.take(ds - 1)) + f == from && 0 < f <= s[ds - 1].len,
    }
}

/// A deletion up to `to` removes whole items before `de`; where `to` cuts
/// into item `de`, it is kept from offset `rt` on.
pub open spec fn end_at(s: Seq<YSpan>, to: int, de: int, rt: Option<usize>) -> bool {
    match rt {
        None => de == s.len() && to == total_len(s),
        Some(t) => 0 <= de < s.len() && total_len(s.take(de)) + t == to && t < s[de].len,
    }
}

/// `e` with the pieces of `v` placed at `at`.
pub open spec fn insertion(e: Seq<YSpan>, at: int, v: YSpan) -> Seq<YSpan> {
    e.take(at) + units(v) + e.skip(at)
}

/// No item continues the one before it.
pub open spec fn compact(s: Seq<YSpan>) -> bool {
    forall|i: int| 0 <= i < s.len() - 1 ==> !(#[trigger] s[i]).mergeable(s[i + 1])
}

/// Leaf of the run-length tree. Leaves and internal nodes live in an arena
/// and name each other by their slot there.
#[derive(Debug)]
pub struct LeafNode {
    /// This leaf's slot in the arena.
    pub key: usize,
    /// Slot of the parent internal node.
    pub parent: usize,
    pub children: Vec<YSpan>,
    pub prev: Option<usize>,
    pub next: Option<usize>,
    /// Sum of the lengths of `children`.
    pub cache: usize,
    /// Sum of the lengths of the visible `children`.
    pub visible_cache: usize,
}

pub proof fn lemma_expand_len(s: Seq<YSpan>)
    ensures
        expand(s).len() == total_len(s),
    decreases s.len(),
{
    if s.len() > 0 {
        lemma_expand_len(s.drop_last());
    }
}

pub proof fn lemma_concat(a: Seq<YSpan>, b: Seq<YSpan>)
    ensures
        expand(a + b) == expand(a) + expand(b),
        total_len(a + b) == total_len(a) + total_len(b),
    decreases b.len(),
{
    if b.len() == 0 {
        assert(a + b =~= a);
        assert(expand(a) + expand(b) =~= expand(a));
    } else {
        lemma_concat(a, b.drop_last());
        assert((a + b).drop_last() =~= a + b.drop_last());
        assert(expand(a + b) =~= expand(a) + expand(b));
    }
}

pub proof fn lemma_single(x: YSpan)
    ensures
        expand(seq![x]) == units(x),
        total_len(seq![x]) == x.len,
{
    let e = Seq::<YSpan>::empty();
    assert(seq![x].drop_last() =~= e);
    assert(expand(e) == e && total_len(e) == 0);
    assert(seq![x].last() == x);
    assert(expand(seq![x]) =~= units(x));
}

/// The expansion around the item at `k`.
pub proof fn lemma_expand_at(s: Seq<YSpan>, k: int)
    requires
        0 <= k < s.len(),
    ensures
        expand(s) == expand(s.take(k)) + units(s[k]) + expand(s.skip(k + 1)),
        total_len(s) == total_len(s.take(k)) + s[k].len + total_len(s.skip(k + 1)),
        expand(s.take(k)).len() == total_len(s.take(k)),
        units(s[k]).len() == s[k].len,
{
    assert(s =~= s.take(k) + seq![s[k]] + s.skip(k + 1));
    lemma_concat(s.take(k), seq![s[k]]);
    lemma_concat(s.take(k) + seq![s[k]], s.skip(k + 1));
    lemma_single(s[k]);
    lemma_expand_len(s.take(k));
}

/// The expansion of a prefix and of the rest are the matching parts of the
/// expansion of the whole.
pub proof fn lemma_expand_prefix(s: Seq<YSpan>, k: int)
    requires
        0 <= k <= s.len(),
    ensures
        expand(s.take(k)) == expand(s).take(total_len(s.take(k)) as int),
        expand(s.skip(k)) == expand(s).skip(total_len(s.take(k)) as int),
        total_len(s) == total_len(s.take(k)) + total_len(s.skip(k)),
        expand(s).len() == total_len(s),
{
    assert(s =~= s.take(k) + s.skip(k));
    lemma_concat(s.take(k), s.skip(k));
    lemma_expand_len(s.take(k));
    lemma_expand_len(s);
    assert(expand(s.take(k)) =~= expand(s).take(total_len(s.take(k)) as int));
    assert(expand(s.skip(k)) =~= expand(s).skip(total_len(s.take(k)) as int));
}

pub proof fn lemma_take_next(s: Seq<YSpan>, i: int)
    requires
        0 <= i < s.len(),
    ensures
        total_len(s.take(i + 1)) == total_len(s.take(i)) + s[i].len,
{
    assert(s.take(i + 1).drop_last() =~= s.take(i));
}

pub proof fn lemma_items_ok_concat(a: Seq<YSpan>, b: Seq<YSpan>)
    ensures
        items_ok(a + b) <==> (items_ok(a) && items_ok(b)),
{
    if items_ok(a + b) {
        assert forall|i: int| 0 <= i < a.len() implies (#[trigger] a[i]).len >= 1 && a[i].valid() by {
            assert((a + b)[i] == a[i]);
        }
        assert forall|i: int| 0 <= i < b.len() implies (#[trigger] b[i]).len >= 1 && b[i].valid() by {
            assert((a + b)[a.len() + i] == b[i]);
        }
    }
}

pub proof fn lemma_expand_three(a: YSpan, b: YSpan, c: YSpan)
    ensures
        expand(seq![a, b, c]) == units(a) + units(b) + units(c),
{
    assert(seq![a, b, c] =~= seq![a] + seq![b] + seq![c]);
    lemma_concat(seq![a], seq![b]);
    lemma_concat(seq![a] + seq![b], seq![c]);
    lemma_single(a);
    lemma_single(b);
    lemma_single(c);
}

pub proof fn lemma_expand_splice(p: Seq<YSpan>, m: Seq<YSpan>, q: Seq<YSpan>)
    ensures
        expand(p + m + q) == expand(p) + expand(m) + expand(q),
        total_len(p + m + q) == total_len(p) + total_len(m) + total_len(q),
{
    lemma_concat(p, m);
    lemma_concat(p + m, q);
}

/// Expansion and well-formedness of two parts are those of their concatenation.
pub proof fn lemma_parts(a: Seq<YSpan>, b: Seq<YSpan>)
    ensures
        expand(a + b) == expand(a) + expand(b),
        items_ok(a + b) <==> (items_ok(a) && items_ok(b)),
{
    lemma_concat(a, b);
    lemma_items_ok_concat(a, b);
}

/// Merging `value` onto the item at `k`, which ends at `raw`, inserts its
/// pieces at `raw`.
pub proof fn lemma_insert_merging(s0: Seq<YSpan>, k: int, raw: int, value: YSpan)
    requires
        items_ok(s0),
        0 <= k < s0.len(),
        total_len(s0.take(k + 1)) == raw,
        s0[k].mergeable(value),
        value.valid(),
    ensures
        ({
            let s1 = s0.update(k, merged(s0[k], value));
            let e = expand(s0);
            &&& expand(s1) == e.take(raw) + units(value) + e.skip(raw)
            &&& items_ok(s1)
        }),
{
    let s1 = s0.update(k, merged(s0[k], value));
    let e = expand(s0);
    lemma_take_next(s0, k);
    lemma_expand_at(s0, k);
    lemma_expand_at(s1, k);
    assert(s1.take(k) =~= s0.take(k));
    assert(s1.skip(k + 1) =~= s0.skip(k + 1));
    lemma_units_of_merge(s0[k], value);
    assert(expand(s1) =~= e.take(raw) + units(value) + e.skip(raw));
    assert forall|i: int| 0 <= i < s1.len() implies (#[trigger] s1[i]).len >= 1 && s1[i].valid() by {
        if i != k {
            assert(s1[i] == s0[i]);
        }
    }
}

/// Placing `value` before the item at `k`, which starts at `raw`, inserts
/// its pieces at `raw`.
pub proof fn lemma_insert_clean(s0: Seq<YSpan>, k: int, raw: int, value: YSpan)
    requires
        items_ok(s0),
        0 <= k <= s0.len(),
        total_len(s0.take(k)) == raw,
        value.len >= 1,
        value.valid(),
    ensures
        ({
            let s1 = s0.insert(k, value);
            let e = expand(s0);
            &&& expand(s1) == e.take(raw) + units(value) + e.skip(raw)
            &&& items_ok(s1)
        }),
{
    let s1 = s0.insert(k, value);
    let e = expand(s0);
    assert(s1 =~= s0.take(k) + seq![value] + s0.skip(k));
    lemma_expand_splice(s0.take(k), seq![value], s0.skip(k));
    lemma_expand_prefix(s0, k);
    lemma_single(value);
    assert(s0 =~= s0.take(k) + s0.skip(k));
    lemma_items_ok_concat(s0.take(k), s0.skip(k));
    lemma_items_ok_concat(s0.take(k), seq![value]);
    lemma_items_ok_concat(s0.take(k) + seq![value], s0.skip(k));
    assert(expand(s1) =~= e.take(raw) + units(value) + e.skip(raw));
}

/// Cutting the item at `k` at `off` and placing `value` between the halves
/// inserts its pieces at `raw`.
pub proof fn lemma_insert_dirty(s0: Seq<YSpan>, k: int, off: int, raw: int, value: YSpan)
    requires
        items_ok(s0),
        0 <= k < s0.len(),
        total_len(s0.take(k)) + off == raw,
        0 < off < s0[k].len,
        value.len >= 1,
        value.valid(),
    ensures
        ({
            let x = s0[k];
            let a = slice_of(x, 0, off);
            let b = slice_of(x, off, x.len as int);
            let s1 = s0.take(k) + seq![a, value, b] + s0.skip(k + 1);
            let e = expand(s0);
            &&& expand(s1) == e.take(raw) + units(value) + e.skip(raw)
            &&& items_ok(s1)
        }),
{
    let x = s0[k];
    let a = slice_of(x, 0, off);
    let b = slice_of(x, off, x.len as int);
    let s1 = s0.take(k) + seq![a, value, b] + s0.skip(k + 1);
    let e = expand(s0);
    lemma_expand_splice(s0.take(k), seq![a, value, b], s0.skip(k + 1));
    lemma_expand_three(a, value, b);
    lemma_expand_at(s0, k);
    lemma_units_of_slice(x, 0, off);
    lemma_units_of_slice(x, off, x.len as int);
    assert(units(x).subrange(0, off) + units(x).subrange(off, x.len as int) =~= units(x));
    assert(e.take(raw) =~= expand(s0.take(k)) + units(a));
    assert(e.skip(raw) =~= units(b) + expand(s0.skip(k + 1)));
    assert(expand(s1) =~= e.take(raw) + units(value) + e.skip(raw));
    assert(s0 =~= s0.take(k) + seq![x] + s0.skip(k + 1));
    lemma_items_ok_concat(s0.take(k) + seq![x], s0.skip(k + 1));
    lemma_items_ok_concat(s0.take(k), seq![x]);
    assert(items_ok(seq![a, value, b])) by {
        lemma_slice_len_and_compose(x, 0, off, 0, off);
        lemma_slice_len_and_compose(x, off, x.len as int, 0, x.len - off);
    }
    lemma_items_ok_concat(s0.take(k), seq![a, value, b]);
    lemma_items_ok_concat(s0.take(k) + seq![a, value, b], s0.skip(k + 1));
}

/// Appending an item that does not continue the last one, or merging it
/// into the last one, keeps a sequence compact.
pub proof fn lemma_compact_append(s0: Seq<YSpan>, value: YSpan)
    requires
        compact(s0),
    ensures
        !(s0.len() > 0 && s0.last().mergeable(value)) ==> compact(s0.push(value)),
        s0.len() > 0 && s0.last().mergeable(value) ==> compact(
            s0.update(s0.len() - 1, merged(s0.last(), value)),
        ),
{
    let n = s0.len() as int;
    if s0.len() > 0 && s0.last().mergeable(value) {
        let s1 = s0.update(n - 1, merged(s0.last(), value));
        assert forall|i: int| 0 <= i < s1.len() - 1 implies !(#[trigger] s1[i]).mergeable(s1[i + 1]) by {
            assert(s1[i] == s0[i]);
            if i + 1 == n - 1 {
                assert(!s0[i].mergeable(s0[n - 1]));
            } else {
                assert(s1[i + 1] == s0[i + 1]);
            }
        }
    } else {
        let s1 = s0.push(value);
        assert forall|i: int| 0 <= i < s1.len() - 1 implies !(#[trigger] s1[i]).mergeable(s1[i + 1]) by {
            assert(s1[i] == s0[i]);
            if i + 1 < n {
                assert(s1[i + 1] == s0[i + 1]);
            }
        }
    }
}

/// The two parts of a compact sequence are compact.
pub proof fn lemma_compact_parts(a: Seq<YSpan>, b: Seq<YSpan>)
    requires
        compact(a + b),
    ensures
        compact(a),
        compact(b),
{
    assert forall|i: int| 0 <= i < a.len() - 1 implies !(#[trigger] a[i]).mergeable(a[i + 1]) by {
        assert((a + b)[i] == a[i] && (a + b)[i + 1] == a[i + 1]);
    }
    assert forall|i: int| 0 <= i < b.len() - 1 implies !(#[trigger] b[i]).mergeable(b[i + 1]) by {
        assert((a + b)[a.len() + i] == b[i] && (a + b)[a.len() + i + 1] == b[i + 1]);
    }
}

pub proof fn lemma_take_mono(s: Seq<YSpan>, i: int, j: int)
    requires
        0 <= i <= j <= s.len(),
    ensures
        total_len(s.take(i)) <= total_len(s.take(j)),
{
    lemma_expand_prefix(s.take(j), i);
    assert(s.take(j).take(i) =~= s.take(i));
}

/// What stays before a deleted range: the items before it, and the left
/// part of the item it starts in.
pub open spec fn kept_before(s: Seq<YSpan>, del_start: int, rel_from: Option<usize>) -> Seq<YSpan> {
    match rel_from {
        None => s.take(del_start),
        Some(f) => s.take(del_start - 1).push(slice_of(s[del_start - 1], 0, f as int)),
    }
}

/// What stays after a deleted range: the right part of the item it ends in,
/// and the items after it.
pub open spec fn kept_after(s: Seq<YSpan>, del_end: int, rel_to: Option<usize>) -> Seq<YSpan> {
    match rel_to {
        None => s.skip(del_end),
        Some(t) => seq![slice_of(s[del_end], t as int, s[del_end].len as int)] + s.skip(del_end + 1),
    }
}

pub proof fn lemma_kept_before(s: Seq<YSpan>, ds: int, rf: Option<usize>, from: int)
    requires
        items_ok(s),
        match rf {
            None => 0 <= ds <= s.len() && total_len(s.take(ds)) == from,
            Some(f) => 1 <= ds <= s.len() && total_len(s.take(ds - 1)) + f == from && 0 < f
                <= s[ds - 1].len,
        },
    ensures
        expand(kept_before(s, ds, rf)) == expand(s).take(from),
        items_ok(kept_before(s, ds, rf)),
{
    lemma_expand_prefix(s, ds);
    assert(s =~= s.take(ds) + s.skip(ds));
    lemma_items_ok_concat(s.take(ds), s.skip(ds));
    if let Some(f) = rf {
        let y = s[ds - 1];
        let k = ds - 1;
        let l = slice_of(y, 0, f as int);
        lemma_expand_at(s, k);
        lemma_concat(s.take(k), seq![l]);
        lemma_single(l);
        lemma_units_of_slice(y, 0, f as int);
        assert(s.take(k).push(l) =~= s.take(k) + seq![l]);
        assert(expand(kept_before(s, ds, rf)) =~= expand(s).take(from));
        lemma_slice_len_and_compose(y, 0, f as int, 0, 0);
        assert(s.take(ds) =~= s.take(k) + seq![y]);
        lemma_items_ok_concat(s.take(k), seq![y]);
        lemma_items_ok_concat(s.take(k), seq![l]);
    }
}

pub proof fn lemma_kept_after(s: Seq<YSpan>, de: int, rt: Option<usize>, to: int)
    requires
        items_ok(s),
        match rt {
            None => de == s.len() && to == total_len(s),
            Some(t) => 0 <= de < s.len() && total_len(s.take(de)) + t == to && t < s[de].len,
        },
    ensures
        expand(kept_after(s, de, rt)) == expand(s).skip(to),
        items_ok(kept_after(s, de, rt)),
{
    lemma_expand_len(s);
    if let Some(t) = rt {
        let z = s[de];
        let r = slice_of(z, t as int, z.len as int);
        lemma_expand_at(s, de);
        lemma_concat(seq![r], s.skip(de + 1));
        lemma_single(r);
        lemma_units_of_slice(z, t as int, z.len as int);
        assert(expand(kept_after(s, de, rt)) =~= expand(s).skip(to));
        lemma_slice_len_and_compose(z, t as int, z.len as int, 0, 0);
        assert(s =~= s.take(de + 1) + s.skip(de + 1));
        lemma_items_ok_concat(s.take(de + 1), s.skip(de + 1));
        lemma_items_ok_concat(seq![r], s.skip(de + 1));
    } else {
        let em = Seq::<YSpan>::empty();
        assert(s.skip(de) =~= em);
        assert(expand(em) == em);
        assert(expand(s).skip(to) =~= em);
    }
}

/// The identifier runs of `a` and `b` share no identifier.
pub open spec fn ids_disjoint(a: YSpan, b: YSpan) -> bool {
    a.id.client_id != b.id.client_id || a.end() <= b.id.counter || b.end() <= a.id.counter
}

/// No item of `s` continues `value` or shares an identifier with it, as for
/// a span made after every item of `s`.
pub open spec fn fresh_for(value: YSpan, s: Seq<YSpan>) -> bool {
    forall|i: int| 0 <= i < s.len() ==> !value.mergeable(#[trigger] s[i]) && ids_disjoint(value, s[i])
}

proof fn lemma_compact_merge_at(s0: Seq<YSpan>, k: int, value: YSpan)
    requires
        compact(s0),
        fresh_for(value, s0),
        0 <= k < s0.len(),
        s0[k].mergeable(value),
        value.valid(),
    ensures
        compact(s0.update(k, merged(s0[k], value))),
{
    let s1 = s0.update(k, merged(s0[k], value));
    assert forall|i: int| 0 <= i < s1.len() - 1 implies !(#[trigger] s1[i]).mergeable(s1[i + 1]) by {
        if i + 1 == k {
            assert(!s0[i].mergeable(s0[k]));
        } else if i == k {
            assert(!value.mergeable(s0[k + 1]));
        } else {
            assert(!s0[i].mergeable(s0[i + 1]));
        }
    }
}

proof fn lemma_compact_insert_at(s0: Seq<YSpan>, k: int, value: YSpan)
    requires
        compact(s0),
        fresh_for(value, s0),
        0 <= k <= s0.len(),
        k > 0 ==> !s0[k - 1].mergeable(value),
    ensures
        compact(s0.insert(k, value)),
{
    let s1 = s0.insert(k, value);
    assert forall|i: int| 0 <= i < s1.len() - 1 implies !(#[trigger] s1[i]).mergeable(s1[i + 1]) by {
        if i + 1 == k {
        } else if i == k {
            assert(!value.mergeable(s0[k]));
        } else if i < k {
            assert(!s0[i].mergeable(s0[i + 1]));
        } else {
            assert(!s0[i - 1].mergeable(s0[i]));
        }
    }
}

proof fn lemma_compact_dirty(s0: Seq<YSpan>, k: int, off: int, value: YSpan)
    requires
        compact(s0),
        fresh_for(value, s0),
        items_ok(s0),
        0 <= k < s0.len(),
        0 < off < s0[k].len,
    ensures
        compact(
            s0.take(k) + seq![
                slice_of(s0[k], 0, off),
                value,
                slice_of(s0[k], off, s0[k].len as int),
            ] + s0.skip(k + 1),
        ),
{
    let x = s0[k];
    let a = slice_of(x, 0, off);
    let b = slice_of(x, off, x.len as int);
    let s1 = s0.take(k) + seq![a, value, b] + s0.skip(k + 1);
    assert(ids_disjoint(value, x));
    assert forall|i: int| 0 <= i < s1.len() - 1 implies !(#[trigger] s1[i]).mergeable(s1[i + 1]) by {
        if i + 1 < k {
            assert(!s0[i].mergeable(s0[i + 1]));
        } else if i + 1 == k {
            assert(!s0[i].mergeable(s0[k]));
        } else if i == k {
        } else if i == k + 1 {
        } else if i == k + 2 {
            assert(!s0[k].mergeable(s0[k + 1]));
        } else {
            assert(!s0[i - 2].mergeable(s0[i - 1]));
        }
    }
}

/// Changing the status of every item changes the status of every piece.
pub proof fn lemma_expand_change(s: Seq<YSpan>, change: StatusChange)
    ensures
        expand(s.map_values(|u: YSpan| with_change(u, change))) == expand(s).map_values(
            |u: YSpan| with_change(u, change),
        ),
        total_len(s.map_values(|u: YSpan| with_change(u, change))) == total_len(s),
    decreases s.len(),
{
    let m = s.map_values(|u: YSpan| with_change(u, change));
    if s.len() == 0 {
        assert(m =~= Seq::<YSpan>::empty());
        assert(expand(s).map_values(|u: YSpan| with_change(u, change)) =~= Seq::<YSpan>::empty());
    } else {
        lemma_expand_change(s.drop_last(), change);
        assert(m.drop_last() =~= s.drop_last().map_values(|u: YSpan| with_change(u, change)));
        assert(m.last() == with_change(s.last(), change));
        lemma_units_of_change(s.last(), change);
        assert(expand(m) =~= expand(s).map_values(|u: YSpan| with_change(u, change)));
    }
}

/// The expansions of the items before `j1`, between `j1` and `j2`, and from
/// `j2` on are the matching parts of the whole expansion.
pub proof fn lemma_expand_range(s: Seq<YSpan>, j1: int, j2: int)
    requires
        0 <= j1 <= j2 <= s.len(),
    ensures
        ({
            let e = expand(s);
            let from = total_len(s.take(j1)) as int;
            let to = total_len(s.take(j2)) as int;
            &&& from <= to <= e.len()
            &&& expand(s.take(j1)) == e.take(from)
            &&& expand(s.subrange(j1, j2)) == e.subrange(from, to)
            &&& expand(s.skip(j2)) == e.skip(to)
        }),
{
    lemma_expand_prefix(s, j1);
    lemma_expand_prefix(s, j2);
    lemma_take_mono(s, j1, j2);
    assert(s.take(j2) =~= s.take(j1) + s.subrange(j1, j2));
    lemma_concat(s.take(j1), s.subrange(j1, j2));
    lemma_expand_len(s.take(j1));
    let e = expand(s);
    let a = expand(s.take(j1));
    let b = expand(s.subrange(j1, j2));
    let to = total_len(s.take(j2)) as int;
    assert(a + b == e.take(to));
    assert((a + b).subrange(a.len() as int, (a + b).len() as int) =~= b);
    assert(e.take(to).subrange(a.len() as int, to) =~= e.subrange(a.len() as int, to));
}

pub proof fn lemma_visible_next(s: Seq<YSpan>, i: int)
    requires
        0 <= i < s.len(),
    ensures
        visible_ids(s.take(i + 1)) == visible_ids(s.take(i)) + if s[i].status.spec_is_visible() {
            run_ids(s[i])
        } else {
            Seq::empty()
        },
{
    assert(s.take(i + 1).drop_last() =~= s.take(i));
    assert(s.take(i + 1).last() == s[i]);
}

pub proof fn lemma_visible_concat(a: Seq<YSpan>, b: Seq<YSpan>)
    ensures
        visible_ids(a + b) == visible_ids(a) + visible_ids(b),
    decreases b.len(),
{
    if b.len() == 0 {
        assert(a + b =~= a);
        assert(visible_ids(a) + visible_ids(b) =~= visible_ids(a));
    } else {
        lemma_visible_concat(a, b.drop_last());
        assert((a + b).drop_last() =~= a + b.drop_last());
        assert(visible_ids(a + b) =~= visible_ids(a) + visible_ids(b));
    }
}

pub proof fn lemma_visible_le_total(s: Seq<YSpan>)
    ensures
        visible_ids(s).len() <= total_len(s),
    decreases s.len(),
{
    if s.len() > 0 {
        lemma_visible_le_total(s.drop_last());
    }
}

proof fn lemma_ids_of_spans_push(s: Seq<IdSpan>, x: IdSpan)
    ensures
        ids_of_spans(s.push(x)) == ids_of_spans(s) + x.ids(),
{
    assert(s.push(x).drop_last() =~= s);
}

impl LeafNode {
    pub open spec fn wf(&self) -> bool {
        &&& self.children.len() <= MAX_CHILDREN
        &&& items_ok(self.children@)
        &&& self.cache == total_len(self.children@)
        &&& self.visible_cache == visible_ids(self.children@).len()
    }

    /// What the leaf holds, one identifier at a time.
    pub open spec fn content(&self) -> Seq<YSpan> {
        expand(self.children@)
    }

    /// Position, parent and neighbours are those of `old`.
    pub open spec fn same_links(&self, old: LeafNode) -> bool {
        &&& self.key == old.key
        &&& self.parent == old.parent
        &&& self.prev == old.prev
        &&& self.next == old.next
    }

    /// `self` is what remains of `old` after a split that made `new` in slot
    /// `new_key`, linked right after it.
    pub open spec fn split_links(&self, old: LeafNode, new: LeafNode, new_key: usize) -> bool {
        &&& self.key == old.key
        &&& self.parent == old.parent
        &&& self.prev == old.prev
        &&& self.next == Some(new_key)
        &&& new.key == new_key
        &&& new.parent == old.parent
        &&& new.prev == Some(old.key)
        &&& new.next == old.next
    }

    /// An empty leaf in slot `key` under the internal node in slot `parent`.
    pub fn new(key: usize, parent: usize) -> (r: LeafNode)
        ensures
            r.wf(),
            r.children@ == Seq::<YSpan>::empty(),
            r.key == key,
            r.parent == parent,
            r.prev is None,
            r.next is None,
            r.cache == 0,
    {
        LeafNode {
            key,
            parent,
            children: Vec::with_capacity(MAX_CHILDREN),
            prev: None,
            next: None,
            cache: 0,
            visible_cache: 0,
        }
    }

    /// Recomputes the cached sums of lengths.
    fn update_cache(&mut self)
        requires
            total_len(old(self).children@) <= usize::MAX,
        ensures
            final(self).cache == total_len(old(self).children@),
            final(self).visible_cache == visible_ids(old(self).children@).len(),
            final(self).children == old(self).children,
            final(self).same_links(*old(self)),
    {
        let mut sum: usize = 0;
        let mut visible: usize = 0;
        let mut i: usize = 0;
        while i < self.children.len()
            invariant
                i <= self.children.len(),
                sum == total_len(self.children@.take(i as int)),
                visible == visible_ids(self.children@.take(i as int)).len(),
                total_len(self.children@) <= usize::MAX,
            decreases self.children.len() - i,
        {
            proof {
                lemma_take_next(self.children@, i as int);
                lemma_visible_next(self.children@, i as int);
                lemma_visible_le_total(self.children@.take(i as int + 1));
                lemma_expand_prefix(self.children@, i as int + 1);
            }
            let x = self.children[i];
            sum = sum + x.len();
            if x.status.is_visible() {
                visible = visible + x.len();
            }
            i = i + 1;
        }
        assert(self.children@.take(i as int) =~= self.children@);
        self.cache = sum;
        self.visible_cache = visible;
    }

    /// Finds the item that holds `index` and the offset inside it. An index
    /// on a boundary belongs to the item that starts there; the total length
    /// is the end of the last item.
    pub fn find_pos_leaf(&self, index: usize) -> (r: (usize, usize, Position))
        requires
            self.children.len() > 0,
            items_ok(self.children@),
            index <= total_len(self.children@),
        ensures
            r.0 < self.children.len(),
            total_len(self.children@.take(r.0 as int)) + r.1 == index,
            r.1 < self.children@[r.0 as int].len || (r.0 == self.children.len() - 1 && r.1
                == self.children@[r.0 as int].len && index == total_len(self.children@)),
            r.2 == (if r.1 == 0 {
                Position::Start
            } else if r.1 == self.children@[r.0 as int].len {
                Position::End
            } else {
                Position::Middle
            }),
    {
        let mut rest: usize = index;
        let mut i: usize = 0;
        while i < self.children.len()
            invariant
                i <= self.children.len(),
                total_len(self.children@.take(i as int)) + rest == index,
                items_ok(self.children@),
                index <= total_len(self.children@),
            decreases self.children.len() - i,
        {
            let l = self.children[i].len();
            if rest < l {
                let pos = if rest == 0 {
                    Position::Start
                } else {
                    Position::Middle
                };
                return (i, rest, pos);
            }
            proof {
                lemma_take_next(self.children@, i as int);
            }
            rest = rest - l;
            i = i + 1;
        }
        let last = self.children.len() - 1;
        proof {
            assert(self.children@.take(i as int) =~= self.children@);
            lemma_take_next(self.children@, last as int);
            assert(self.children@.take(last as int + 1) =~= self.children@);
        }
        (last, self.children[last].len(), Position::End)
    }

    /// Moves the last `MIN_CHILDREN` items into a new leaf in slot `new_key`,
    /// linked right after this one. Caches are left to the caller.
    fn _split(&mut self, new_key: usize) -> (r: LeafNode)
        requires
            old(self).children.len() >= MIN_CHILDREN,
        ensures
            final(self).children@ == old(self).children@.take(
                old(self).children.len() - MIN_CHILDREN,
            ),
            r.children@ == old(self).children@.skip(old(self).children.len() - MIN_CHILDREN),
            final(self).split_links(*old(self), r, new_key),
            final(self).cache == old(self).cache,
    {
        let at = self.children.len() - MIN_CHILDREN;
        let moved = self.children.split_off(at);
        let ans = LeafNode {
            key: new_key,
            parent: self.parent,
            children: moved,
            prev: Some(self.key),
            next: self.next,
            cache: 0,
            visible_cache: 0,
        };
        self.next = Some(new_key);
        ans
    }

    /// Inserts `value` before the item at `index`; where that leaves more
    /// than `MAX_CHILDREN` items, splits. Caches are left to the caller.
    fn _insert_with_split(&mut self, index: usize, value: YSpan, new_key: usize) -> (r: Result<(), LeafNode>)
        requires
            old(self).children.len() <= MAX_CHILDREN,
            index <= old(self).children.len(),
        ensures
            ({
                let s = old(self).children@.insert(index as int, value);
                match r {
                    Ok(()) => {
                        &&& final(self).children@ == s
                        &&& final(self).children.len() <= MAX_CHILDREN
                        &&& final(self).same_links(*old(self))
                    },
                    Err(n) => {
                        &&& final(self).children@ + n.children@ == s
                        &&& final(self).children.len() == MAX_CHILDREN + 1 - MIN_CHILDREN
                        &&& n.children.len() == MIN_CHILDREN
                        &&& final(self).split_links(*old(self), n, new_key)
                    },
                }
            }),
            final(self).cache == old(self).cache,
    {
        self.children.insert(index, value);
        if self.children.len() > MAX_CHILDREN {
            let ghost s = self.children@;
            let ans = self._split(new_key);
            assert(self.children@ + ans.children@ =~= s);
            Err(ans)
        } else {
            Ok(())
        }
    }

    /// Inserts `value` at `raw_index`: merged into the item before a clean
    /// cut where the two continue each other, else placed between the items,
    /// cutting the item that holds the index in two where needed. Where that
    /// leaves more than `MAX_CHILDREN` items, splits. Caches are left to the
    /// caller.
    #[verifier::spinoff_prover]
    #[verifier::rlimit(50)]
    fn _insert(&mut self, raw_index: usize, value: YSpan, new_key: usize) -> (r: Result<(), LeafNode>)
        requires
            old(self).children.len() <= MAX_CHILDREN,
            items_ok(old(self).children@),
            raw_index <= total_len(old(self).children@),
            value.len >= 1,
            value.valid(),
        ensures
            ({
                let e = expand(old(self).children@);
                let t = e.take(raw_index as int) + units(value) + e.skip(raw_index as int);
                let c = compact(old(self).children@) && fresh_for(value, old(self).children@);
                match r {
                    Ok(()) => {
                        &&& expand(final(self).children@) == t
                        &&& items_ok(final(self).children@)
                        &&& final(self).children.len() <= MAX_CHILDREN
                        &&& final(self).same_links(*old(self))
                        &&& (c ==> compact(final(self).children@))
                    },
                    Err(n) => {
                        &&& (c ==> compact(final(self).children@) && compact(n.children@))
                        &&& expand(final(self).children@) + expand(n.children@) == t
                        &&& items_ok(final(self).children@)
                        &&& items_ok(n.children@)
                        &&& MIN_CHILDREN <= final(self).children.len() <= MAX_CHILDREN
                        &&& MIN_CHILDREN <= n.children.len() <= MAX_CHILDREN
                        &&& final(self).split_links(*old(self), n, new_key)
                    },
                }
            }),
            exists|k: int, off: int|
                #![trigger at_pos(old(self).children@, raw_index as int, k, off)]
                {
                    let items = inserted_items(old(self).children@, k, off, value);
                    &&& at_pos(old(self).children@, raw_index as int, k, off)
                    &&& joined(*final(self), r) == items
                    &&& (r is Err <==> items.len() > MAX_CHILDREN)
                },
            final(self).cache == old(self).cache,
    {
        let ghost s0 = self.children@;
        let ghost e = expand(s0);
        let ghost t = e.take(raw_index as int) + units(value) + e.skip(raw_index as int);
        if self.children.len() == 0 {
            self.children.push(value);
            proof {
                let em = Seq::<YSpan>::empty();
                assert(s0 =~= em);
                assert(expand(em) == em);
                lemma_single(value);
                assert(self.children@ =~= seq![value]);
                assert(t =~= units(value));
                assert(s0.take(0) =~= s0);
                assert(at_pos(s0, raw_index as int, 0, 0));
                assert(s0.insert(0, value) =~= seq![value]);
                assert(joined(*self, Ok(())) == inserted_items(s0, 0, 0, value));
            }
            return Ok(());
        }
        let (found, off, _pos) = self.find_pos_leaf(raw_index);
        let mut index = found;
        let mut offset = off;
        if offset != 0 && offset == self.children[index].len() {
            proof {
                lemma_take_next(s0, found as int);
            }
            index = index + 1;
            offset = 0;
        }
        if offset == 0 && index > 0 {
            let mut prev = self.children[index - 1];
            if prev.is_mergable(&value) {
                proof {
                    lemma_take_next(s0, index - 1);
                    lemma_insert_merging(s0, index - 1, raw_index as int, value);
                    if compact(s0) && fresh_for(value, s0) {
                        lemma_compact_merge_at(s0, index - 1, value);
                    }
                }
                prev.merge(&value);
                self.children.set(index - 1, prev);
                assert(at_pos(s0, raw_index as int, index as int, 0));
                assert(joined(*self, Ok(())) == inserted_items(s0, index as int, 0, value));
                return Ok(());
            }
        }
        if offset == 0 {
            proof {
                lemma_insert_clean(s0, index as int, raw_index as int, value);
                if compact(s0) && fresh_for(value, s0) {
                    lemma_compact_insert_at(s0, index as int, value);
                }
            }
            let r = self._insert_with_split(index, value, new_key);
            proof {
                assert(at_pos(s0, raw_index as int, index as int, 0));
                assert(joined(*self, r) == inserted_items(s0, index as int, 0, value));
                if r is Err {
                    let n = r->Err_0;
                    lemma_parts(self.children@, n.children@);
                    if compact(s0) && fresh_for(value, s0) {
                        lemma_compact_parts(self.children@, n.children@);
                    }
                }
            }
            return r;
        }
        // a dirty cut: the item at `index` is cut in two around `value`
        let x = self.children[index];
        let a = x.slice(0, offset);
        let b = x.slice(offset, x.len());
        proof {
            lemma_insert_dirty(s0, index as int, offset as int, raw_index as int, value);
            if compact(s0) && fresh_for(value, s0) {
                lemma_compact_dirty(s0, index as int, offset as int, value);
            }
        }
        self.children.set(index, a);
        self.children.insert(index + 1, b);
        self.children.insert(index + 1, value);
        let ghost s1 = self.children@;
        assert(s1 =~= s0.take(index as int) + seq![a, value, b] + s0.skip(index as int + 1));
        assert(at_pos(s0, raw_index as int, index as int, offset as int));
        assert(s1 == inserted_items(s0, index as int, offset as int, value));
        if self.children.len() > MAX_CHILDREN {
            let ans = self._split(new_key);
            proof {
                assert(self.children@ + ans.children@ =~= s1);
                assert(joined(*self, Err(ans)) == s1);
                lemma_parts(self.children@, ans.children@);
                if compact(s0) && fresh_for(value, s0) {
                    lemma_compact_parts(self.children@, ans.children@);
                }
            }
            return Err(ans);
        }
        Ok(())
    }

    /// Inserts `value` at `raw_index` of the leaf's content. Where the leaf
    /// overflows, it splits and the new right part, in slot `new_key`, comes
    /// back as the error.
    /// After a split the caller relinks the leaf that followed this one:
    /// its `prev` must name `new_key`.
    pub fn insert(&mut self, raw_index: usize, value: YSpan, new_key: usize) -> (r: Result<(), LeafNode>)
        requires
            old(self).wf(),
            raw_index <= old(self).cache,
            value.len >= 1,
            value.valid(),
            old(self).cache + value.len <= usize::MAX,
        ensures
            final(self).wf(),
            ({
                let e = old(self).content();
                let t = e.take(raw_index as int) + units(value) + e.skip(raw_index as int);
                let c = compact(old(self).children@) && fresh_for(value, old(self).children@);
                match r {
                    Ok(()) => {
                        &&& final(self).content() == t
                        &&& final(self).same_links(*old(self))
                        &&& (c ==> compact(final(self).children@))
                    },
                    Err(n) => {
                        &&& n.wf()
                        &&& (c ==> compact(final(self).children@) && compact(n.children@))
                        &&& final(self).content() + n.content() == t
                        &&& final(self).children.len() >= MIN_CHILDREN
                        &&& n.children.len() >= MIN_CHILDREN
                        &&& final(self).split_links(*old(self), n, new_key)
                    },
                }
            }),
            exists|k: int, off: int|
                #![trigger at_pos(old(self).children@, raw_index as int, k, off)]
                {
                    let items = inserted_items(old(self).children@, k, off, value);
                    &&& at_pos(old(self).children@, raw_index as int, k, off)
                    &&& joined(*final(self), r) == items
                    &&& (r is Err <==> items.len() > MAX_CHILDREN)
                },
    {
        let ghost e = expand(self.children@);
        proof {
            lemma_expand_len(self.children@);
        }
        let res = self._insert(raw_index, value, new_key);
        let ghost j = joined(*self, res);
        match res {
            Ok(()) => {
                proof {
                    lemma_expand_len(self.children@);
                    assert(expand(self.children@).len() == e.len() + value.len);
                }
                self.update_cache();
                assert(joined(*self, Ok(())) == j);
                Ok(())
            },
            Err(mut new) => {
                proof {
                    lemma_expand_len(self.children@);
                    lemma_expand_len(new.children@);
                    assert((expand(self.children@) + expand(new.children@)).len() == e.len() + value.len);
                }
                self.update_cache();
                new.update_cache();
                assert(joined(*self, Err(new)) == j);
                Err(new)
            },
        }
    }

    /// Where a deletion from `from` starts: the first item removed whole,
    /// and the length kept of the item before it where `from` cuts into it.
    fn _delete_start(&self, from: usize) -> (r: (usize, Option<usize>))
        requires
            self.children.len() > 0,
            items_ok(self.children@),
            from <= total_len(self.children@),
        ensures
            match r.1 {
                None => r.0 < self.children.len() && total_len(self.children@.take(r.0 as int))
                    == from,
                Some(f) => 1 <= r.0 <= self.children.len() && total_len(
                    self.children@.take(r.0 - 1),
                ) + f == from && 0 < f <= self.children@[r.0 - 1].len,
            },
    {
        let (index_from, relative_from, pos_from) = self.find_pos_leaf(from);
        if pos_from == Position::Start {
            (index_from, None)
        } else {
            (index_from + 1, Some(relative_from))
        }
    }

    /// Where a deletion up to `to` ends: one past the last item removed
    /// whole, and the offset from which the item after it is kept where `to`
    /// cuts into it.
    fn _delete_end(&self, to: usize) -> (r: (usize, Option<usize>))
        requires
            self.children.len() > 0,
            items_ok(self.children@),
            to <= total_len(self.children@),
        ensures
            match r.1 {
                None => r.0 == self.children.len() && to == total_len(self.children@),
                Some(t) => r.0 < self.children.len() && total_len(self.children@.take(r.0 as int))
                    + t == to && t < self.children@[r.0 as int].len,
            },
    {
        let (index_to, relative_to, pos_to) = self.find_pos_leaf(to);
        if pos_to == Position::End {
            (index_to + 1, None)
        } else {
            (index_to, Some(relative_to))
        }
    }

    /// Start of a deletion: the given index, or the leaf's start.
    pub open spec fn del_from(start: Option<usize>) -> int {
        match start {
            Some(s) => s as int,
            None => 0,
        }
    }

    /// End of a deletion: the given index, or the leaf's end.
    pub open spec fn del_to(&self, end: Option<usize>) -> int {
        match end {
            Some(e) => e as int,
            None => self.cache as int,
        }
    }

    /// Removes `[start, end)` of the leaf's content; a missing bound is the
    /// leaf's start or end. Deleting inside one item leaves its two ends as
    /// two items, which may overflow the leaf: it then splits and the new
    /// right part, in slot `new_key`, comes back as the error.
    /// After a split the caller relinks the leaf that followed this one:
    /// its `prev` must name `new_key`.
    #[verifier::spinoff_prover]
    #[verifier::rlimit(50)]
    pub fn delete(&mut self, start: Option<usize>, end: Option<usize>, new_key: usize) -> (r: Result<(), LeafNode>)
        requires
            old(self).wf(),
            Self::del_from(start) <= old(self).del_to(end) <= old(self).cache,
        ensures
            final(self).wf(),
            ({
                let e = old(self).content();
                let t = e.take(Self::del_from(start)) + e.skip(old(self).del_to(end));
                match r {
                    Ok(()) => final(self).content() == t && final(self).same_links(*old(self)),
                    Err(n) => {
                        &&& n.wf()
                        &&& final(self).content() + n.content() == t
                        &&& final(self).children.len() >= MIN_CHILDREN
                        &&& n.children.len() >= MIN_CHILDREN
                        &&& final(self).split_links(*old(self), n, new_key)
                    },
                }
            }),
            exists|ds: int, rf: Option<usize>, de: int, rt: Option<usize>|
                #![trigger start_at(old(self).children@, Self::del_from(start), ds, rf), end_at(old(self).children@, old(self).del_to(end), de, rt)]
                {
                    let s = old(self).children@;
                    let items = kept_before(s, ds, rf) + kept_after(s, de, rt);
                    &&& start_at(s, Self::del_from(start), ds, rf)
                    &&& end_at(s, old(self).del_to(end), de, rt)
                    &&& joined(*final(self), r) == items
                    &&& (r is Err <==> items.len() > MAX_CHILDREN)
                },
    {
        let ghost s0 = self.children@;
        let ghost from = Self::del_from(start);
        let ghost to = self.del_to(end);
        if self.children.len() == 0 {
            proof {
                let em = Seq::<YSpan>::empty();
                assert(s0 =~= em);
                assert(s0.take(0) =~= em);
                assert(s0.skip(0) =~= em);
                assert(expand(em) == em);
                assert(start_at(s0, from, 0, None));
                assert(end_at(s0, to, 0, None));
                assert(kept_before(s0, 0, None) + kept_after(s0, 0, None) =~= em);
                assert(joined(*self, Ok(())) == kept_before(s0, 0, None) + kept_after(s0, 0, None));
            }
            return Ok(());
        }
        let (del_start, del_relative_from) = match start {
            Some(x) => self._delete_start(x),
            None => (0, None),
        };
        let (del_end, del_relative_to) = match end {
            Some(x) => self._delete_end(x),
            None => (self.children.len(), None),
        };
        proof {
            lemma_expand_len(s0);
            if del_relative_from is None {
                assert(s0.take(0) =~= Seq::<YSpan>::empty());
            }
            if del_relative_to is None && end is None {
                assert(s0.take(s0.len() as int) =~= s0);
            }
        }
        let mut handled = false;
        let mut result: Result<(), LeafNode> = Ok(());
        if let (Some(f), Some(t)) = (del_relative_from, del_relative_to) {
            if del_start - 1 == del_end {
                // both ends fall inside one item: keep its two ends
                let x = self.children[del_end];
                let left = x.slice(0, f);
                let right = x.slice(t, x.len());
                proof {
                    let k = del_end as int;
                    lemma_kept_before(s0, del_start as int, del_relative_from, from);
                    lemma_kept_after(s0, k, del_relative_to, to);
                    assert(kept_before(s0, del_start as int, del_relative_from) + kept_after(s0, k, del_relative_to)
                        =~= s0.update(k, left).insert(k + 1, right));
                    lemma_parts(kept_before(s0, del_start as int, del_relative_from), kept_after(s0, k, del_relative_to));
                }
                self.children.set(del_end, left);
                result = self._insert_with_split(del_end + 1, right, new_key);
                handled = true;
            }
        }
        if !handled {
            proof {
                let ds = del_start as int;
                let de = del_end as int;
                lemma_kept_before(s0, ds, del_relative_from, from);
                lemma_kept_after(s0, de, del_relative_to, to);
                match del_relative_from {
                    None => {
                        if ds > de {
                            lemma_take_mono(s0, de + 1, ds);
                            lemma_take_next(s0, de);
                        }
                    },
                    Some(f) => {
                        if del_relative_to is Some && ds - 1 > de {
                            lemma_take_mono(s0, de + 1, ds - 1);
                            lemma_take_next(s0, de);
                        }
                    },
                }
                assert(ds <= de);
            }
            if let Some(f) = del_relative_from {
                let y = self.children[del_start - 1];
                self.children.set(del_start - 1, y.slice(0, f));
            }
            if let Some(t) = del_relative_to {
                let z = self.children[del_end];
                self.children.set(del_end, z.slice(t, z.len()));
            }
            let ghost s1 = self.children@;
            assert(s1.take(del_start as int) =~= kept_before(s0, del_start as int, del_relative_from));
            assert(s1.skip(del_end as int) =~= kept_after(s0, del_end as int, del_relative_to));
            if del_start < del_end {
                let mut tail = self.children.split_off(del_end);
                self.children.truncate(del_start);
                self.children.append(&mut tail);
            }
            proof {
                assert(self.children@ =~= s1.take(del_start as int) + s1.skip(del_end as int));
                lemma_parts(s1.take(del_start as int), s1.skip(del_end as int));
                lemma_expand_len(self.children@);
            }
        }
        let ghost items = kept_before(s0, del_start as int, del_relative_from) + kept_after(
            s0,
            del_end as int,
            del_relative_to,
        );
        proof {
            lemma_expand_len(self.children@);
            assert(start_at(s0, from, del_start as int, del_relative_from));
            assert(end_at(s0, to, del_end as int, del_relative_to));
            assert(joined(*self, result) == items);
            if result is Err {
                let n = result->Err_0;
                lemma_parts(self.children@, n.children@);
                lemma_expand_len(n.children@);
                assert(expand(self.children@ + n.children@).len() <= total_len(s0));
            }
        }
        let ghost j = joined(*self, result);
        self.update_cache();
        match result {
            Ok(()) => {
                assert(joined(*self, Ok(())) == j);
                Ok(())
            },
            Err(mut new) => {
                new.update_cache();
                assert(joined(*self, Err(new)) == j);
                Err(new)
            },
        }
    }

    /// Appends `value`, merged into the last item where it continues it.
    /// Where the leaf overflows, it splits and the new right part, in slot
    /// `new_key`, comes back as the error.
    /// After a split the caller relinks the leaf that followed this one:
    /// its `prev` must name `new_key`.
    pub fn push_child(&mut self, value: YSpan, new_key: usize) -> (r: Result<(), LeafNode>)
        requires
            old(self).wf(),
            value.len >= 1,
            value.valid(),
            old(self).cache + value.len <= usize::MAX,
        ensures
            final(self).wf(),
            ({
                let t = old(self).content() + units(value);
                let c = compact(old(self).children@);
                match r {
                    Ok(()) => {
                        &&& final(self).content() == t
                        &&& final(self).same_links(*old(self))
                        &&& (c ==> compact(final(self).children@))
                    },
                    Err(n) => {
                        &&& n.wf()
                        &&& final(self).content() + n.content() == t
                        &&& (c ==> compact(final(self).children@) && compact(n.children@))
                        &&& final(self).children.len() >= MIN_CHILDREN
                        &&& n.children.len() >= MIN_CHILDREN
                        &&& final(self).split_links(*old(self), n, new_key)
                    },
                }
            }),
            ({
                let s = old(self).children@;
                let items = if s.len() > 0 && s.last().mergeable(value) {
                    s.update(s.len() - 1, merged(s.last(), value))
                } else {
                    s.push(value)
                };
                &&& joined(*final(self), r) == items
                &&& (r is Err <==> items.len() > MAX_CHILDREN)
            }),
    {
        let ghost s0 = self.children@;
        let ghost e = expand(s0);
        let ghost total = total_len(s0) as int;
        proof {
            lemma_expand_len(s0);
            assert(e.take(total) =~= e);
            assert(e.skip(total) =~= Seq::<YSpan>::empty());
            assert(e.take(total) + units(value) + e.skip(total) =~= e + units(value));
            assert(s0.take(s0.len() as int) =~= s0);
        }
        let len = self.children.len();
        if len > 0 {
            let mut last = self.children[len - 1];
            if last.is_mergable(&value) {
                proof {
                    lemma_insert_merging(s0, len - 1, total, value);
                    if compact(s0) {
                        lemma_compact_append(s0, value);
                    }
                }
                last.merge(&value);
                self.children.set(len - 1, last);
                proof {
                    lemma_expand_len(self.children@);
                }
                self.update_cache();
                return Ok(());
            }
        }
        proof {
            lemma_insert_clean(s0, len as int, total, value);
            if compact(s0) {
                lemma_compact_append(s0, value);
                assert(s0.insert(len as int, value) =~= s0.push(value));
            }
        }
        let result = self._insert_with_split(len, value, new_key);
        assert(s0.insert(len as int, value) =~= s0.push(value));
        let ghost j = joined(*self, result);
        match result {
            Ok(()) => {
                proof {
                    lemma_expand_len(self.children@);
                }
                self.update_cache();
                assert(joined(*self, Ok(())) == j);
                Ok(())
            },
            Err(mut new) => {
                proof {
                    lemma_parts(self.children@, new.children@);
                    if compact(s0) {
                        lemma_compact_parts(self.children@, new.children@);
                    }
                    lemma_expand_len(self.children@);
                    lemma_expand_len(new.children@);
                    assert((expand(self.children@) + expand(new.children@)).len() == e.len() + value.len);
                }
                self.update_cache();
                new.update_cache();
                assert(joined(*self, Err(new)) == j);
                Err(new)
            },
        }
    }

    /// Whether the leaf holds at most `MAX_CHILDREN` items and its caches are
    /// the sums of their lengths and of their visible lengths.
    pub fn check(&self) -> (r: bool)
        ensures
            r == (self.children.len() <= MAX_CHILDREN && self.cache == total_len(self.children@)
                && self.visible_cache == visible_ids(self.children@).len()),
    {
        if self.children.len() > MAX_CHILDREN {
            return false;
        }
        let mut sum: usize = 0;
        let mut visible: usize = 0;
        let mut i: usize = 0;
        while i < self.children.len()
            invariant
                i <= self.children.len(),
                sum == total_len(self.children@.take(i as int)),
                visible == visible_ids(self.children@.take(i as int)).len(),
                sum <= self.cache,
            decreases self.children.len() - i,
        {
            proof {
                lemma_take_next(self.children@, i as int);
                lemma_visible_next(self.children@, i as int);
                lemma_visible_le_total(self.children@.take(i as int + 1));
                lemma_take_mono(self.children@, i as int + 1, self.children.len() as int);
                assert(self.children@.take(self.children.len() as int) =~= self.children@);
            }
            let x = self.children[i];
            let l = x.len();
            if l > self.cache - sum {
                return false;
            }
            sum = sum + l;
            if x.status.is_visible() {
                visible = visible + l;
            }
            i = i + 1;
        }
        assert(self.children@.take(i as int) =~= self.children@);
        sum == self.cache && visible == self.visible_cache
    }

    /// The items, in order.
    pub fn children(&self) -> (r: &[YSpan])
        ensures
            r@ == self.children@,
    {
        self.children.as_slice()
    }

    /// Slot of the leaf after this one.
    pub fn next(&self) -> (r: Option<usize>)
        ensures
            r == self.next,
    {
        self.next
    }

    /// Slot of the leaf before this one.
    pub fn prev(&self) -> (r: Option<usize>)
        ensures
            r == self.prev,
    {
        self.prev
    }

    /// Makes an item start at `raw`, cutting in two the item that holds it
    /// where needed, and returns the index of that item.
    fn _cut(&mut self, raw: usize) -> (r: usize)
        requires
            items_ok(old(self).children@),
            raw <= total_len(old(self).children@),
        ensures
            expand(final(self).children@) == expand(old(self).children@),
            items_ok(final(self).children@),
            r <= final(self).children.len(),
            total_len(final(self).children@.take(r as int)) == raw,
            final(self).children@ == old(self).children@ || ({
                &&& final(self).children.len() == old(self).children.len() + 1
                &&& 1 <= r <= old(self).children.len()
                &&& final(self).children@.skip(r + 1) == old(self).children@.skip(r as int)
                &&& total_len(old(self).children@.take(r - 1)) < raw < total_len(
                    old(self).children@.take(r as int),
                )
            }),
            final(self).same_links(*old(self)),
            final(self).cache == old(self).cache,
    {
        let ghost s0 = self.children@;
        if self.children.len() == 0 {
            assert(s0.take(0) =~= s0);
            return 0;
        }
        let (i, off, _pos) = self.find_pos_leaf(raw);
        if off == 0 {
            return i;
        }
        proof {
            lemma_take_next(s0, i as int);
        }
        if off == self.children[i].len() {
            return i + 1;
        }
        let x = self.children[i];
        let a = x.slice(0, off);
        let b = x.slice(off, x.len());
        self.children.set(i, a);
        self.children.insert(i + 1, b);
        proof {
            let k = i as int;
            let s1 = self.children@;
            assert(s1 =~= s0.take(k) + seq![a, b] + s0.skip(k + 1));
            lemma_expand_splice(s0.take(k), seq![a, b], s0.skip(k + 1));
            assert(seq![a, b] =~= seq![a] + seq![b]);
            lemma_concat(seq![a], seq![b]);
            lemma_single(a);
            lemma_single(b);
            lemma_expand_at(s0, k);
            lemma_units_of_slice(x, 0, off as int);
            lemma_units_of_slice(x, off as int, x.len as int);
            assert(units(x).subrange(0, off as int) + units(x).subrange(off as int, x.len as int) =~= units(x));
            assert(expand(s1) =~= expand(s0));
            assert(s0 =~= s0.take(k) + seq![x] + s0.skip(k + 1));
            lemma_items_ok_concat(s0.take(k) + seq![x], s0.skip(k + 1));
            lemma_items_ok_concat(s0.take(k), seq![x]);
            lemma_slice_len_and_compose(x, 0, off as int, 0, 0);
            lemma_slice_len_and_compose(x, off as int, x.len as int, 0, 0);
            lemma_items_ok_concat(s0.take(k), seq![a, b]);
            lemma_items_ok_concat(s0.take(k) + seq![a, b], s0.skip(k + 1));
            assert(s1.take(k + 1) =~= s0.take(k).push(a));
            assert(s1.take(k + 1).drop_last() =~= s0.take(k));
            assert(s1.skip(k + 2) =~= s0.skip(k + 1));
        }
        i + 1
    }

    /// Applies `change` to the status of the content in `[from, to)`,
    /// cutting the items at both ends so the change stays inside the range.
    /// The cuts may overflow the leaf: it then splits and the new right
    /// part, in slot `new_key`, comes back as the error.
    /// After a split the caller relinks the leaf that followed this one:
    /// its `prev` must name `new_key`.
    #[verifier::spinoff_prover]
    #[verifier::rlimit(50)]
    pub fn update_status(&mut self, from: usize, to: usize, change: StatusChange, new_key: usize) -> (r: Result<(), LeafNode>)
        requires
            old(self).wf(),
            from <= to <= old(self).cache,
        ensures
            final(self).wf(),
            ({
                let e = old(self).content();
                let t = e.take(from as int) + e.subrange(from as int, to as int).map_values(
                    |u: YSpan| with_change(u, change),
                ) + e.skip(to as int);
                match r {
                    Ok(()) => final(self).content() == t && final(self).same_links(*old(self)),
                    Err(n) => {
                        &&& n.wf()
                        &&& final(self).content() + n.content() == t
                        &&& final(self).children.len() >= MIN_CHILDREN
                        &&& n.children.len() >= MIN_CHILDREN
                        &&& final(self).split_links(*old(self), n, new_key)
                    },
                }
            }),
            r matches Err(n) ==> final(self).children.len() + n.children.len() > MAX_CHILDREN,
    {
        let ghost s0 = self.children@;
        let ghost e = expand(s0);
        proof {
            lemma_expand_len(s0);
        }
        let j2 = self._cut(to);
        let ghost sa = self.children@;
        proof {
            lemma_expand_len(sa);
        }
        let na = self.children.len();
        let j1 = self._cut(from);
        let ghost sb = self.children@;
        let end = if self.children.len() > na {
            j2 + 1
        } else {
            j2
        };
        proof {
            lemma_expand_len(sa);
            lemma_expand_len(sb);
            lemma_expand_prefix(sa, j2 as int);
            lemma_expand_prefix(sb, end as int);
            if sb == sa {
                if j1 > j2 && j2 < sa.len() {
                    lemma_take_mono(sa, j2 + 1, j1 as int);
                    lemma_take_next(sa, j2 as int);
                }
            } else {
                if j1 > j2 {
                    lemma_take_mono(sa, j2 as int, j1 - 1);
                }
                assert forall|m: int| 0 <= m < sb.skip(end as int).len() implies #[trigger] sb.skip(end as int)[m] == sa.skip(j2 as int)[m] by {
                    assert(sb.skip(end as int)[m] == sb.skip(j1 + 1)[j2 - j1 + m]);
                    assert(sa.skip(j2 as int)[m] == sa.skip(j1 as int)[j2 - j1 + m]);
                }
                assert(sb.skip(end as int) =~= sa.skip(j2 as int));
            }
            assert(j1 <= end);
            assert(total_len(sb.take(end as int)) == to);
        }
        let mut k = j1;
        while k < end
            invariant
                j1 <= k <= end <= sb.len(),
                self.children@.len() == sb.len(),
                forall|m: int|
                    0 <= m < sb.len() ==> #[trigger] self.children@[m] == if j1 <= m < k {
                        with_change(sb[m], change)
                    } else {
                        sb[m]
                    },
                self.same_links(*old(self)),
            decreases end - k,
        {
            let mut x = self.children[k];
            x.status.apply(change);
            self.children.set(k, x);
            k = k + 1;
        }
        let ghost mid = sb.subrange(j1 as int, end as int);
        let ghost s1 = self.children@;
        proof {
            let f = |u: YSpan| with_change(u, change);
            assert(s1 =~= sb.take(j1 as int) + mid.map_values(f) + sb.skip(end as int));
            lemma_expand_range(sb, j1 as int, end as int);
            lemma_expand_change(mid, change);
            lemma_expand_splice(sb.take(j1 as int), mid.map_values(f), sb.skip(end as int));
            assert(expand(s1) =~= e.take(from as int) + e.subrange(from as int, to as int).map_values(f) + e.skip(to as int));
            assert forall|m: int| 0 <= m < s1.len() implies (#[trigger] s1[m]).len >= 1 && s1[m].valid() by {
                assert(sb[m] == sb[m]);
            }
            lemma_expand_len(s1);
        }
        if self.children.len() > MAX_CHILDREN {
            let mut ans = self._split(new_key);
            proof {
                assert(self.children@ + ans.children@ =~= s1);
                lemma_parts(self.children@, ans.children@);
                lemma_expand_len(self.children@);
                lemma_expand_len(ans.children@);
            }
            self.update_cache();
            ans.update_cache();
            return Err(ans);
        }
        self.update_cache();
        Ok(())
    }

    /// Position in the content of the piece with identifier `id`, if the
    /// leaf holds it.
    pub fn find_id(&self, id: ID) -> (r: Option<usize>)
        requires
            self.wf(),
        ensures
            match r {
                Some(p) => p < self.content().len() && self.content()[p as int].id == id,
                None => forall|p: int| 0 <= p < self.content().len() ==> #[trigger] self.content()[p].id != id,
            },
    {
        let ghost s = self.children@;
        let ghost e = expand(s);
        proof {
            lemma_expand_len(s);
            assert(s.take(0) =~= Seq::<YSpan>::empty());
        }
        let mut i: usize = 0;
        let mut pos: usize = 0;
        while i < self.children.len()
            invariant
                self.wf(),
                s == self.children@,
                e == expand(s),
                e.len() == total_len(s),
                i <= s.len(),
                pos == total_len(s.take(i as int)),
                forall|p: int| 0 <= p < pos ==> #[trigger] e[p].id != id,
            decreases s.len() - i,
        {
            let x = self.children[i];
            proof {
                lemma_take_next(s, i as int);
                lemma_take_mono(s, i as int + 1, s.len() as int);
                assert(s.take(s.len() as int) =~= s);
                lemma_expand_at(s, i as int);
                lemma_expand_len(s.take(i as int));
            }
            if x.contains_id(id) {
                let k = (id.counter - x.id.counter) as usize;
                proof {
                    assert(e[pos + k] == units(x)[k as int]);
                }
                return Some(pos + k);
            }
            proof {
                assert forall|p: int| 0 <= p < pos + x.len implies #[trigger] e[p].id != id by {
                    if p >= pos {
                        assert(e[p] == units(x)[p - pos]);
                    }
                }
            }
            pos = pos + x.len();
            i = i + 1;
        }
        assert(s.take(i as int) =~= s);
        None
    }

    /// The range of the content strictly after the piece `from` and before
    /// the piece `to`; a missing anchor is the leaf's start or end. None
    /// where an anchor is not in the leaf.
    pub fn scan_range(&self, from: Option<ID>, to: Option<ID>) -> (r: Option<(usize, usize)>)
        requires
            self.wf(),
        ensures
            ({
                let c = self.content();
                let found = |a: Option<ID>|
                    match a {
                        Some(id) => exists|p: int| 0 <= p < c.len() && #[trigger] c[p].id == id,
                        None => true,
                    };
                &&& r is Some <==> (found(from) && found(to))
                &&& r matches Some((a, b)) ==> {
                    &&& a <= c.len() && b <= c.len()
                    &&& (from is None ==> a == 0)
                    &&& (from matches Some(id) ==> a >= 1 && c[a - 1].id == id)
                    &&& (to is None ==> b == c.len())
                    &&& (to matches Some(id) ==> b < c.len() && c[b as int].id == id)
                }
            }),
    {
        proof {
            lemma_expand_len(self.children@);
        }
        let start = match from {
            Some(id) => match self.find_id(id) {
                Some(p) => p + 1,
                None => return None,
            },
            None => 0,
        };
        let end = match to {
            Some(id) => match self.find_id(id) {
                Some(p) => p,
                None => return None,
            },
            None => self.cache,
        };
        Some((start, end))
    }

    /// Inserts `op` right after the piece with identifier `id`, or at the
    /// start where `id` is missing. Where the leaf overflows, it splits and
    /// the new right part, in slot `new_key`, comes back as the error.
    /// After a split the caller relinks the leaf that followed this one:
    /// its `prev` must name `new_key`.
    pub fn insert_after_id(&mut self, id: Option<ID>, op: YSpan, new_key: usize) -> (r: Result<(), LeafNode>)
        requires
            old(self).wf(),
            op.len >= 1,
            op.valid(),
            old(self).cache + op.len <= usize::MAX,
            id matches Some(i) ==> exists|p: int|
                0 <= p < old(self).content().len() && #[trigger] old(self).content()[p].id == i,
        ensures
            final(self).wf(),
            exists|at: int|
                #![trigger insertion(old(self).content(), at, op)]
                {
                    let e = old(self).content();
                    let t = insertion(e, at, op);
                    &&& 0 <= at <= e.len()
                    &&& (id is None ==> at == 0)
                    &&& (id matches Some(i) ==> at >= 1 && e[at - 1].id == i)
                    &&& match r {
                        Ok(()) => final(self).content() == t && final(self).same_links(*old(self)),
                        Err(n) => {
                            &&& n.wf()
                            &&& final(self).content() + n.content() == t
                            &&& final(self).split_links(*old(self), n, new_key)
                        },
                    }
                },
    {
        let ghost e = expand(self.children@);
        proof {
            lemma_expand_len(self.children@);
        }
        let at = match id {
            Some(i) => match self.find_id(i) {
                Some(p) => p + 1,
                None => 0,
            },
            None => 0,
        };
        let r = self.insert(at, op, new_key);
        assert(insertion(e, at as int, op) == e.take(at as int) + units(op) + e.skip(at as int));
        r
    }

    /// The identifier ranges of the visible characters `[pos, pos + len)`
    /// of the leaf, skipping deleted ones.
    #[verifier::spinoff_prover]
    #[verifier::rlimit(50)]
    pub fn get_id_spans(&self, pos: usize, len: usize) -> (r: Vec<IdSpan>)
        requires
            self.wf(),
            pos + len <= visible_ids(self.children@).len(),
        ensures
            ids_of_spans(r@) == visible_ids(self.children@).subrange(pos as int, pos + len),
    {
        let ghost s = self.children@;
        let ghost v = visible_ids(s);
        proof {
            lemma_visible_le_total(s);
        }
        let to: usize = pos + len;
        let mut out: Vec<IdSpan> = Vec::new();
        let mut i: usize = 0;
        let mut vpos: usize = 0;
        proof {
            assert(s.take(0) =~= Seq::<YSpan>::empty());
            assert(out@ =~= Seq::<IdSpan>::empty());
            assert(ids_of_spans(out@) =~= v.subrange(pos as int, pos as int));
        }
        while i < self.children.len() && vpos < to
            invariant
                self.wf(),
                s == self.children@,
                v == visible_ids(s),
                to == pos + len,
                to <= v.len(),
                i <= s.len(),
                vpos == visible_ids(s.take(i as int)).len(),
                visible_ids(s.take(i as int)) == v.take(vpos as int),
                ids_of_spans(out@) == v.subrange(pos as int, clamp(vpos as int, pos as int, to as int)),
            decreases s.len() - i,
        {
            let x = self.children[i];
            proof {
                lemma_visible_next(s, i as int);
                let rest = s.skip(i as int + 1);
                assert(s =~= s.take(i as int + 1) + rest);
                lemma_visible_concat(s.take(i as int + 1), rest);
                lemma_visible_le_total(s.take(i as int + 1));
                lemma_take_mono(s, i as int + 1, s.len() as int);
                assert(s.take(s.len() as int) =~= s);
            }
            if x.status.is_visible() {
                let end = vpos + x.len();
                let a = if pos > vpos { pos - vpos } else { 0 };
                let b = if to < end { to - vpos } else { x.len() };
                if a < b {
                    let piece = IdSpan {
                        client_id: x.id.client_id,
                        counter_start: x.id.counter + a as u32,
                        counter_end: x.id.counter + b as u32,
                    };
                    let ghost o0 = out@;
                    out.push(piece);
                    proof {
                        lemma_ids_of_spans_push(o0, piece);
                        assert(piece.ids() =~= run_ids(x).subrange(a as int, b as int));
                        assert(v.take(end as int) =~= v.take(vpos as int) + run_ids(x));
                        assert(v.subrange(pos as int, clamp(vpos as int, pos as int, to as int)) + run_ids(x).subrange(a as int, b as int)
                            =~= v.subrange(pos as int, clamp(end as int, pos as int, to as int)));
                    }
                } else {
                    assert(clamp(end as int, pos as int, to as int) == clamp(vpos as int, pos as int, to as int));
                }
                proof {
                    assert(visible_ids(s.take(i as int + 1)) =~= v.take(end as int));
                }
                vpos = end;
            } else {
                proof {
                    assert(visible_ids(s.take(i as int + 1)) =~= visible_ids(s.take(i as int)));
                }
            }
            i = i + 1;
        }
        proof {
            if i == s.len() {
                assert(s.take(i as int) =~= s);
            }
        }
        out
    }
}

} // verus!
