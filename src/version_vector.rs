use std::collections::HashMap;

use vstd::prelude::*;

use crate::id::ID;

verus! {

/// For each client, the counter one past the last of its identifiers known
/// here.
#[derive(Debug)]
pub struct VersionVector {
    ends: HashMap<u64, u32>,
}

impl View for VersionVector {
    type V = Map<u64, u32>;

    closed spec fn view(&self) -> Map<u64, u32> {
        self.ends@
    }
}

impl VersionVector {
    /// Next expected counter of `client`: zero for a client not seen.
    pub open spec fn end_of(&self, client: u64) -> int {
        if self@.contains_key(client) {
            self@[client] as int
        } else {
            0
        }
    }

    pub fn new() -> (r: VersionVector)
        ensures
            forall|c: u64| #[trigger] r.end_of(c) == 0,
    {
        VersionVector { ends: HashMap::new() }
    }

    /// Next expected counter of `client`.
    pub fn get(&self, client: u64) -> (r: u32)
        ensures
            r == self.end_of(client),
    {
        match self.ends.get(&client) {
            Some(v) => *v,
            None => 0,
        }
    }

    /// Whether `id` is known: its counter lies below its client's end.
    pub fn includes(&self, id: ID) -> (r: bool)
        ensures
            r == (id.counter < self.end_of(id.client_id)),
    {
        id.counter < self.get(id.client_id)
    }

    /// Raises the end of `end.client_id` to `end.counter`; an end never
    /// goes down.
    pub fn set_end(&mut self, end: ID)
        ensures
            forall|c: u64|
                #[trigger] final(self).end_of(c) == if c == end.client_id && old(self).end_of(c)
                    < end.counter {
                    end.counter as int
                } else {
                    old(self).end_of(c)
                },
            forall|c: u64| old(self).end_of(c) <= #[trigger] final(self).end_of(c),
    {
        let cur = self.get(end.client_id);
        if cur < end.counter {
            self.ends.insert(end.client_id, end.counter);
        }
    }
}

} // verus!
