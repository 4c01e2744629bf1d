use vstd::prelude::*;

verus! {

/// Identifier of one inserted character: the client that made it and that
/// client's counter at the time.
#[derive(Clone, Copy, Debug, PartialEq, Eq, Structural)]
pub struct ID {
    pub client_id: u64,
    pub counter: u32,
}

impl ID {
    pub fn new(client_id: u64, counter: u32) -> (r: ID)
        ensures
            r.client_id == client_id,
            r.counter == counter,
    {
        ID { client_id, counter }
    }

    /// Whether `id` lies in the run of `len` identifiers that starts at `self`.
    pub open spec fn spec_contains(self, len: int, id: ID) -> bool {
        &&& self.client_id == id.client_id
        &&& self.counter <= id.counter
        &&& id.counter < self.counter + len
    }

    pub fn contains(&self, len: u32, id: ID) -> (r: bool)
        ensures
            r == self.spec_contains(len as int, id),
    {
        self.client_id == id.client_id && self.counter <= id.counter
            && (id.counter as u64) < (self.counter as u64) + (len as u64)
    }
}

/// The identifiers `[counter_start, counter_end)` of one client.
#[derive(Clone, Copy, Debug, PartialEq, Eq, Structural)]
pub struct IdSpan {
    pub client_id: u64,
    pub counter_start: u32,
    pub counter_end: u32,
}

impl IdSpan {
    /// The identifiers of the range, in order.
    pub open spec fn ids(self) -> Seq<ID> {
        Seq::new(
            (self.counter_end - self.counter_start) as nat,
            |k: int| ID { client_id: self.client_id, counter: (self.counter_start + k) as u32 },
        )
    }
}

/// The identifiers of the ranges, in order.
pub open spec fn ids_of_spans(s: Seq<IdSpan>) -> Seq<ID>
    decreases s.len(),
{
    if s.len() == 0 {
        Seq::empty()
    } else {
        ids_of_spans(s.drop_last()) + s.last().ids()
    }
}

/// Equality of two optional anchors.
pub fn opt_id_eq(a: &Option<ID>, b: &Option<ID>) -> (r: bool)
    ensures
        r == (*a == *b),
{
    match (a, b) {
        (Some(x), Some(y)) => x.client_id == y.client_id && x.counter == y.counter,
        (None, None) => true,
        _ => false,
    }
}

} // verus!
