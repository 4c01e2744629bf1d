use vstd::prelude::*;

use crate::leaf::{
    clamp, compact, expand, items_ok, lemma_compact_append, lemma_compact_parts,
    lemma_take_mono, lemma_concat, lemma_expand_at, lemma_expand_len, lemma_items_ok_concat,
    lemma_single, lemma_take_next, total_len,
};
use crate::y_span::{lemma_slice_len_and_compose, lemma_units_of_merge, lemma_units_of_slice, slice_of, units, YSpan};

verus! {

/// The spans of `s` that meet `[from, to)` of their total length, each cut
/// to that range, in order.
pub open spec fn cut_range(s: Seq<YSpan>, from: int, to: int) -> Seq<YSpan>
    decreases s.len(),
{
    if s.len() == 0 {
        Seq::empty()
    } else {
        let p = total_len(s.drop_last()) as int;
        let x = s.last();
        let a = if from > p {
            from - p
        } else {
            0
        };
        let b = if to < p + x.len {
            to - p
        } else {
            x.len as int
        };
        if a < b {
            cut_range(s.drop_last(), from, to).push(slice_of(x, a, b))
        } else {
            cut_range(s.drop_last(), from, to)
        }
    }
}

/// Spans in order, each merged into the one before it where it continues it.
#[derive(Debug)]
pub struct RleVec {
    vec: Vec<YSpan>,
}

impl View for RleVec {
    type V = Seq<YSpan>;

    closed spec fn view(&self) -> Seq<YSpan> {
        self.vec@
    }
}

/// Consecutive pieces of one span continue each other.
pub proof fn lemma_units_consecutive(y: YSpan, k: int)
    requires
        y.valid(),
        0 <= k,
        k + 2 <= y.len,
    ensures
        slice_of(y, k, k + 1).mergeable(slice_of(y, k + 1, k + 2)),
{
}

/// The last piece of `p` is continued by the first piece of `x` exactly
/// when `p` is continued by `x`.
pub proof fn lemma_boundary(p: YSpan, x: YSpan)
    requires
        p.valid(),
        x.valid(),
        p.len >= 1,
        x.len >= 1,
    ensures
        slice_of(p, p.len - 1, p.len as int).mergeable(slice_of(x, 0, 1)) == p.mergeable(x),
{
}

proof fn lemma_nonempty_total(s: Seq<YSpan>)
    requires
        items_ok(s),
        s.len() > 0,
    ensures
        total_len(s) >= 1,
{
    assert(s.last() == s[s.len() - 1]);
}

/// A compact sequence of spans is determined by its pieces.
pub proof fn lemma_compact_canonical(a: Seq<YSpan>, b: Seq<YSpan>)
    requires
        compact(a),
        compact(b),
        items_ok(a),
        items_ok(b),
        expand(a) == expand(b),
    ensures
        a == b,
    decreases a.len() + b.len(),
{
    lemma_expand_len(a);
    lemma_expand_len(b);
    if a.len() == 0 || b.len() == 0 {
        if a.len() > 0 {
            lemma_nonempty_total(a);
        }
        if b.len() > 0 {
            lemma_nonempty_total(b);
        }
        assert(a =~= b);
    } else {
        let a1 = a.drop_last();
        let b1 = b.drop_last();
        let x = a.last();
        let y = b.last();
        let e = expand(a);
        assert(a =~= a1 + seq![x]);
        assert(b =~= b1 + seq![y]);
        lemma_compact_parts(a1, seq![x]);
        lemma_compact_parts(b1, seq![y]);
        lemma_items_ok_concat(a1, seq![x]);
        lemma_items_ok_concat(b1, seq![y]);
        lemma_expand_len(a1);
        lemma_expand_len(b1);
        assert(x == a[a.len() - 1] && y == b[b.len() - 1]);
        if x.len < y.len {
            lemma_nonempty_total(b);
            assert(a1.len() > 0) by {
                if a1.len() == 0 {
                    assert(expand(a1).len() == 0);
                }
            }
            lemma_no_shorter_last(a, b);
        } else if y.len < x.len {
            assert(b1.len() > 0) by {
                if b1.len() == 0 {
                    assert(expand(b1).len() == 0);
                }
            }
            lemma_no_shorter_last(b, a);
        }
        assert(x.len == y.len);
        assert(units(x) =~= e.skip(e.len() - x.len));
        assert(units(y) =~= e.skip(e.len() - y.len));
        assert(units(x)[0] == units(y)[0]);
        assert(x == y);
        assert(expand(a1) =~= e.take(e.len() - x.len));
        assert(expand(b1) =~= e.take(e.len() - y.len));
        lemma_compact_canonical(a1, b1);
    }
}

/// In two compact sequences with the same pieces, the last span of one is
/// not shorter than the last span of the other.
proof fn lemma_no_shorter_last(a: Seq<YSpan>, b: Seq<YSpan>)
    requires
        compact(a),
        items_ok(a),
        items_ok(b),
        expand(a) == expand(b),
        a.len() >= 2,
        b.len() >= 1,
    ensures
        a.last().len >= b.last().len,
{
    let x = a.last();
    let y = b.last();
    if x.len < y.len {
        let e = expand(a);
        let a1 = a.drop_last();
        let a2 = a1.drop_last();
        let p = a1.last();
        let b1 = b.drop_last();
        assert(x == a[a.len() - 1] && y == b[b.len() - 1] && p == a[a.len() - 2]);
        lemma_expand_len(a);
        lemma_expand_len(a2);
        lemma_expand_len(b1);
        let n = e.len() as int;
        let i = n - x.len - 1;
        assert(expand(a) == expand(a1) + units(x));
        assert(expand(a1) == expand(a2) + units(p));
        assert(e == expand(a2) + units(p) + units(x));
        assert(expand(b) == expand(b1) + units(y));
        assert(e[i] == units(p)[p.len - 1]);
        assert(e[i + 1] == units(x)[0]);
        let k = y.len - x.len - 1;
        assert(e[i] == units(y)[k]);
        assert(e[i + 1] == units(y)[k + 1]);
        lemma_units_consecutive(y, k);
        lemma_boundary(p, x);
        assert(!a[a.len() - 2].mergeable(a[a.len() - 1]));
    }
}

impl RleVec {
    pub open spec fn wf(&self) -> bool {
        &&& items_ok(self@)
        &&& compact(self@)
        &&& total_len(self@) <= usize::MAX
    }

    pub fn new() -> (r: RleVec)
        ensures
            r.wf(),
            r@ == Seq::<YSpan>::empty(),
    {
        RleVec { vec: Vec::new() }
    }

    /// Appends `value`, merged into the last span where it continues it.
    pub fn push(&mut self, value: YSpan)
        requires
            old(self).wf(),
            value.len >= 1,
            value.valid(),
            total_len(old(self)@) + value.len <= usize::MAX,
        ensures
            final(self).wf(),
            expand(final(self)@) == expand(old(self)@) + units(value),
            old(self)@.len() > 0 && old(self)@.last().mergeable(value) ==> final(self)@.len()
                == old(self)@.len(),
            !(old(self)@.len() > 0 && old(self)@.last().mergeable(value)) ==> final(self)@ == old(
                self,
            )@.push(value),
    {
        let ghost s0 = self.vec@;
        let n = self.vec.len();
        if n > 0 {
            let mut last = self.vec[n - 1];
            if last.is_mergable(&value) {
                last.merge(&value);
                self.vec.set(n - 1, last);
                proof {
                    let k = n - 1;
                    let s1 = self.vec@;
                    lemma_expand_at(s0, k as int);
                    lemma_expand_at(s1, k as int);
                    assert(s1.take(k as int) =~= s0.take(k as int));
                    assert(s1.skip(k + 1) =~= s0.skip(k + 1));
                    lemma_units_of_merge(s0[k as int], value);
                    assert(expand(s1) =~= expand(s0) + units(value));
                    assert forall|i: int| 0 <= i < s1.len() implies (#[trigger] s1[i]).len >= 1 && s1[i].valid() by {
                        if i != k {
                            assert(s1[i] == s0[i]);
                        }
                    }
                    lemma_compact_append(s0, value);
                    lemma_total_via_expand(s0, s1, value);
                }
                return;
            }
        }
        self.vec.push(value);
        proof {
            let s1 = self.vec@;
            assert(s1 =~= s0 + seq![value]);
            lemma_concat(s0, seq![value]);
            lemma_single(value);
            lemma_items_ok_concat(s0, seq![value]);
            lemma_compact_append(s0, value);
        }
    }

    /// Number of spans.
    pub fn merged_len(&self) -> (r: usize)
        ensures
            r == self@.len(),
    {
        self.vec.len()
    }

    /// Total length of the spans.
    pub fn len(&self) -> (r: usize)
        requires
            self.wf(),
        ensures
            r == total_len(self@),
    {
        let mut sum: usize = 0;
        let mut i: usize = 0;
        while i < self.vec.len()
            invariant
                self.wf(),
                i <= self.vec@.len(),
                sum == total_len(self.vec@.take(i as int)),
            decreases self.vec.len() - i,
        {
            proof {
                lemma_take_next(self.vec@, i as int);
                lemma_take_mono(self.vec@, i as int + 1, self.vec@.len() as int);
                assert(self.vec@.take(self.vec@.len() as int) =~= self.vec@);
            }
            sum = sum + self.vec[i].len();
            i = i + 1;
        }
        assert(self.vec@.take(i as int) =~= self.vec@);
        sum
    }

    /// The span at `index`, if there is one.
    pub fn get_merged(&self, index: usize) -> (r: Option<YSpan>)
        ensures
            index < self@.len() ==> r == Some(self@[index as int]),
            index >= self@.len() ==> r is None,
    {
        if index < self.vec.len() {
            Some(self.vec[index])
        } else {
            None
        }
    }

    /// The spans cut to the range `[from, to)` of their total length.
    pub fn slice_iter(&self, from: usize, to: usize) -> (r: Vec<YSpan>)
        requires
            self.wf(),
            from <= to <= total_len(self@),
        ensures
            r@ == cut_range(self@, from as int, to as int),
            expand(r@) == expand(self@).subrange(from as int, to as int),
            items_ok(r@),
    {
        let ghost s = self.vec@;
        let ghost e = expand(s);
        let mut out: Vec<YSpan> = Vec::new();
        let mut i: usize = 0;
        let mut pos: usize = 0;
        proof {
            assert(s.take(0) =~= Seq::<YSpan>::empty());
            lemma_expand_len(s);
            assert(out@ =~= Seq::<YSpan>::empty());
            assert(expand(out@).len() == 0);
            assert(expand(out@) =~= e.subrange(from as int, from as int));
            assert(cut_range(s.take(0), from as int, to as int) =~= out@);
        }
        while i < self.vec.len()
            invariant
                self.wf(),
                s == self.vec@,
                e == expand(s),
                e.len() == total_len(s),
                from <= to <= total_len(s),
                i <= s.len(),
                pos == total_len(s.take(i as int)),
                expand(out@) == e.subrange(from as int, clamp(pos as int, from as int, to as int)),
                items_ok(out@),
                out@ == cut_range(s.take(i as int), from as int, to as int),
            decreases s.len() - i,
        {
            let x = self.vec[i];
            proof {
                lemma_take_next(s, i as int);
                lemma_take_mono(s, i as int + 1, s.len() as int);
                assert(s.take(s.len() as int) =~= s);
                lemma_expand_at(s, i as int);
                assert(s.take(i + 1).drop_last() =~= s.take(i as int));
                assert(s.take(i + 1).last() == x);
            }
            let end = pos + x.len();
            let a = if from > pos { from - pos } else { 0 };
            let b = if to <= pos {
                0
            } else if to < end {
                to - pos
            } else {
                x.len()
            };
            if a < b {
                let piece = x.slice(a, b);
                let ghost o0 = out@;
                out.push(piece);
                proof {
                    lemma_concat(o0, seq![piece]);
                    lemma_single(piece);
                    lemma_units_of_slice(x, a as int, b as int);
                    lemma_slice_len_and_compose(x, a as int, b as int, 0, 0);
                    lemma_items_ok_concat(o0, seq![piece]);
                    assert(out@ =~= o0 + seq![piece]);
                    assert(e.subrange(from as int, clamp(pos as int, from as int, to as int)) + units(x).subrange(a as int, b as int)
                        =~= e.subrange(from as int, clamp(end as int, from as int, to as int)));
                }
            } else {
                assert(clamp(end as int, from as int, to as int) == clamp(pos as int, from as int, to as int));
            }
            pos = end;
            i = i + 1;
        }
        proof {
            if i == s.len() {
                assert(s.take(i as int) =~= s);
            }
        }
        out
    }

    /// The run-length vector of `spans`: each merged into the one before it
    /// where it continues it.
    pub fn from_spans(spans: &[YSpan]) -> (r: RleVec)
        requires
            items_ok(spans@),
            total_len(spans@) <= usize::MAX,
        ensures
            r.wf(),
            expand(r@) == expand(spans@),
    {
        let mut r = RleVec::new();
        let mut i: usize = 0;
        proof {
            assert(spans@.take(0) =~= Seq::<YSpan>::empty());
            assert(r@ =~= Seq::<YSpan>::empty());
        }
        while i < spans.len()
            invariant
                i <= spans@.len(),
                r.wf(),
                expand(r@) == expand(spans@.take(i as int)),
                items_ok(spans@),
                total_len(spans@) <= usize::MAX,
            decreases spans.len() - i,
        {
            let x = spans[i];
            proof {
                lemma_take_next(spans@, i as int);
                lemma_take_mono(spans@, i as int + 1, spans@.len() as int);
                assert(spans@.take(spans@.len() as int) =~= spans@);
                lemma_expand_len(r@);
                lemma_expand_len(spans@.take(i as int));
                assert(spans@.take(i as int + 1) =~= spans@.take(i as int) + seq![x]);
                lemma_concat(spans@.take(i as int), seq![x]);
                lemma_single(x);
            }
            r.push(x);
            i = i + 1;
        }
        assert(spans@.take(i as int) =~= spans@);
        r
    }

    /// Whether both hold the same spans.
    pub fn same_spans(&self, other: &RleVec) -> (r: bool)
        ensures
            r == (self@ == other@),
    {
        if self.vec.len() != other.vec.len() {
            return false;
        }
        let mut i: usize = 0;
        while i < self.vec.len()
            invariant
                i <= self.vec@.len(),
                self.vec@.len() == other.vec@.len(),
                forall|j: int| 0 <= j < i ==> self.vec@[j] == other.vec@[j],
            decreases self.vec.len() - i,
        {
            if self.vec[i] != other.vec[i] {
                return false;
            }
            i = i + 1;
        }
        assert(self.vec@ =~= other.vec@);
        true
    }
}

proof fn lemma_total_via_expand(s0: Seq<YSpan>, s1: Seq<YSpan>, value: YSpan)
    requires
        expand(s1) == expand(s0) + units(value),
    ensures
        total_len(s1) == total_len(s0) + value.len,
{
    lemma_expand_len(s0);
    lemma_expand_len(s1);
}

} // verus!
