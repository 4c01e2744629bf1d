use vstd::prelude::*;

use crate::id::ID;
use crate::y_span::YSpan;

verus! {

/// Set of identifiers, kept as the identifier runs of the spans inserted.
#[derive(Debug, Default)]
pub struct OpSpanSet {
    spans: Vec<(ID, u32)>,
}

/// The identifiers of a span.
pub open spec fn ids_of(v: YSpan) -> Set<ID> {
    Set::new(|id: ID| v.id.spec_contains(v.len as int, id))
}

impl View for OpSpanSet {
    type V = Set<ID>;

    closed spec fn view(&self) -> Set<ID> {
        Set::new(
            |id: ID|
                exists|i: int|
                    0 <= i < self.spans@.len() && (#[trigger] self.spans@[i]).0.spec_contains(
                        self.spans@[i].1 as int,
                        id,
                    ),
        )
    }
}

impl OpSpanSet {
    pub fn new() -> (r: OpSpanSet)
        ensures
            r@ == Set::<ID>::empty(),
    {
        let r = OpSpanSet { spans: Vec::new() };
        assert(r@ =~= Set::<ID>::empty());
        r
    }

    /// Adds the identifiers of `value`.
    pub fn insert(&mut self, value: &YSpan)
        ensures
            final(self)@ == old(self)@.union(ids_of(*value)),
    {
        let ghost before = self.spans@;
        self.spans.push((value.id, value.len));
        assert forall|id: ID| #[trigger] self@.contains(id) == (old(self)@.contains(id)
            || value.id.spec_contains(value.len as int, id)) by {
            if old(self)@.contains(id) {
                let i = choose|i: int|
                    0 <= i < before.len() && (#[trigger] before[i]).0.spec_contains(before[i].1 as int, id);
                assert(self.spans@[i] == before[i]);
            }
            if self@.contains(id) && !value.id.spec_contains(value.len as int, id) {
                let i = choose|i: int|
                    0 <= i < self.spans@.len() && (#[trigger] self.spans@[i]).0.spec_contains(
                        self.spans@[i].1 as int,
                        id,
                    );
                assert(i < before.len());
                assert(self.spans@[i] == before[i]);
            }
            if value.id.spec_contains(value.len as int, id) {
                assert(self.spans@[before.len() as int] == (value.id, value.len));
            }
        }
        assert(self@ =~= old(self)@.union(ids_of(*value)));
    }

    /// Whether `id` is in the set.
    pub fn contain(&self, id: ID) -> (r: bool)
        ensures
            r == self@.contains(id),
    {
        let mut i: usize = 0;
        while i < self.spans.len()
            invariant
                i <= self.spans@.len(),
                forall|j: int|
                    0 <= j < i ==> !(#[trigger] self.spans@[j]).0.spec_contains(
                        self.spans@[j].1 as int,
                        id,
                    ),
            decreases self.spans.len() - i,
        {
            let (start, len) = self.spans[i];
            if start.contains(len, id) {
                return true;
            }
            i = i + 1;
        }
        false
    }

    /// Removes every identifier.
    pub fn clear(&mut self)
        ensures
            final(self)@ == Set::<ID>::empty(),
    {
        self.spans.clear();
        assert(self@ =~= Set::<ID>::empty());
    }
}

/// Recording a span a second time adds nothing.
pub proof fn lemma_insert_idempotent(known: Set<ID>, v: YSpan)
    ensures
        known.union(ids_of(v)).union(ids_of(v)) == known.union(ids_of(v)),
{
    assert(known.union(ids_of(v)).union(ids_of(v)) =~= known.union(ids_of(v)));
}

/// The set reached by recording two spans does not depend on their order.
pub proof fn lemma_insert_commutes(known: Set<ID>, a: YSpan, b: YSpan)
    ensures
        known.union(ids_of(a)).union(ids_of(b)) == known.union(ids_of(b)).union(ids_of(a)),
{
    assert(known.union(ids_of(a)).union(ids_of(b)) =~= known.union(ids_of(b)).union(ids_of(a)));
}

} // verus!
