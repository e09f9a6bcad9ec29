use vstd::prelude::*;
use crate::chunk::{Chunk, same_chunk};
use crate::fixers::{ChunkTimecodeFixer, StartingPointFilter, fixes};

verus! {

/// The chunks waiting for one listener.
pub struct ListenerQueue {
    pub id: u64,
    pub chunks: Vec<Chunk>,
    /// chunks were dropped since the listener last caught up
    pub lagged: bool,
}

/// What a listener gets when it asks for the next chunk.
pub enum Delivery {
    /// the next chunk
    Chunk(Chunk),
    /// chunks were dropped: the listener must wait for the next starting point
    Realign,
    /// nothing yet; a transmitter is there
    Pending,
    /// nothing more will come
    Ended,
}

/// One transmitter coupled to many listeners, each with a bounded queue; a
/// listener whose queue is full misses the chunk.
pub struct Channel {
    pub name: String,
    pub next_listener_id: u64,
    pub transmitter_present: bool,
    /// the most chunks a listener's queue holds
    pub capacity: usize,
    pub listeners: Vec<ListenerQueue>,
}

impl Channel {
    /// Listener ids are distinct and below the next one to be given out, no
    /// queue holds more than the capacity, and every queued chunk is well formed.
    pub open spec fn wf(&self) -> bool {
        &&& forall|i: int, j: int|
            0 <= i < j < self.listeners@.len() ==> #[trigger] self.listeners@[i].id
                != #[trigger] self.listeners@[j].id
        &&& forall|i: int|
            0 <= i < self.listeners@.len() ==> #[trigger] self.listeners@[i].id
                < self.next_listener_id
        &&& forall|i: int|
            0 <= i < self.listeners@.len() ==> #[trigger] self.listeners@[i].chunks@.len()
                <= self.capacity
        &&& forall|i: int, k: int|
            0 <= i < self.listeners@.len() && 0 <= k < self.listeners@[i].chunks@.len()
                ==> #[trigger] self.listeners@[i].chunks@[k].wf()
    }

    /// The position of the listener with the given id, if there is one.
    pub open spec fn index_of(&self, id: u64) -> Option<int> {
        if exists|i: int| 0 <= i < self.listeners@.len() && #[trigger] self.listeners@[i].id == id {
            Some(choose|i: int| 0 <= i < self.listeners@.len() && #[trigger] self.listeners@[i].id == id)
        } else {
            None
        }
    }

    /// A channel with no transmitter and no listener.
    pub fn new(name: String, capacity: usize) -> (r: Channel)
        ensures
            r.wf(),
            r.name == name,
            r.capacity == capacity,
            r.next_listener_id == 0,
            !r.transmitter_present,
            r.listeners@.len() == 0,
    {
        Channel { name, next_listener_id: 0, transmitter_present: false, capacity, listeners: Vec::new() }
    }

    /// Marks whether a transmitter is attached.
    pub fn set_transmitter_present(&mut self, present: bool)
        requires
            old(self).wf(),
        ensures
            final(self).wf(),
            final(self).transmitter_present == present,
            final(self).listeners@ == old(self).listeners@,
            final(self).next_listener_id == old(self).next_listener_id,
            final(self).capacity == old(self).capacity,
    {
        self.transmitter_present = present;
    }

    /// Adds a listener with an empty queue and returns its id; `None` once
    /// every id has been given out.
    pub fn add_listener(&mut self) -> (r: Option<u64>)
        requires
            old(self).wf(),
        ensures
            final(self).wf(),
            final(self).transmitter_present == old(self).transmitter_present,
            final(self).capacity == old(self).capacity,
            old(self).next_listener_id == u64::MAX ==> r is None && final(self).listeners@
                == old(self).listeners@,
            old(self).next_listener_id < u64::MAX ==> {
                &&& r == Some(old(self).next_listener_id)
                &&& final(self).next_listener_id == old(self).next_listener_id + 1
                &&& final(self).listeners@.len() == old(self).listeners@.len() + 1
                &&& final(self).listeners@.subrange(0, old(self).listeners@.len() as int)
                    == old(self).listeners@
                &&& final(self).listeners@.last().id == old(self).next_listener_id
                &&& final(self).listeners@.last().chunks@.len() == 0
                &&& !final(self).listeners@.last().lagged
            },
    {
        if self.next_listener_id == u64::MAX {
            return None;
        }
        let id = self.next_listener_id;
        self.listeners.push(ListenerQueue { id, chunks: Vec::new(), lagged: false });
        self.next_listener_id = id + 1;
        proof {
            let s = old(self).listeners@;
            let t = self.listeners@;
            assert(t.subrange(0, s.len() as int) =~= s);
            assert forall|a: int| 0 <= a < t.len() implies #[trigger] t[a].chunks@.len()
                <= self.capacity && t[a].id < self.next_listener_id by {
                if a < s.len() {
                    assert(t[a] == s[a]);
                }
            }
            assert forall|a: int, b: int| 0 <= a < b < t.len() implies #[trigger] t[a].id
                != #[trigger] t[b].id by {
                assert(t[a] == s[a]);
                if b < s.len() {
                    assert(t[b] == s[b]);
                }
            }
            assert forall|a: int, k: int| 0 <= a < t.len() && 0 <= k < t[a].chunks@.len() implies #[trigger] t[a].chunks@[k].wf() by {
                if a < s.len() {
                    assert(t[a] == s[a]);
                    assert(s[a].chunks@[k].wf());
                }
            }
        }
        Some(id)
    }

    /// Finds the position of the listener with the given id.
    pub fn find(&self, id: u64) -> (r: Option<usize>)
        requires
            self.wf(),
        ensures
            r == match self.index_of(id) {
                Some(i) => Some(i as usize),
                None => None::<usize>,
            },
            r matches Some(i) ==> i < self.listeners@.len() && self.listeners@[i as int].id == id,
    {
        let mut i: usize = 0;
        while i < self.listeners.len()
            invariant
                i <= self.listeners@.len(),
                self.wf(),
                forall|k: int| 0 <= k < i ==> #[trigger] self.listeners@[k].id != id,
            decreases self.listeners@.len() - i,
        {
            if self.listeners[i].id == id {
                proof {
                    let j = choose|j: int|
                        0 <= j < self.listeners@.len() && #[trigger] self.listeners@[j].id == id;
                    assert(j == i) by {
                        if j != i {
                            if j < i {
                                assert(self.listeners@[j].id != id);
                            } else {
                                assert(self.listeners@[i as int].id != self.listeners@[j].id);
                            }
                        }
                    }
                }
                return Some(i);
            }
            i = i + 1;
        }
        None
    }

    /// Removes the listener with the given id, if it is there.
    pub fn remove_listener(&mut self, id: u64)
        requires
            old(self).wf(),
        ensures
            final(self).wf(),
            final(self).transmitter_present == old(self).transmitter_present,
            final(self).next_listener_id == old(self).next_listener_id,
            final(self).capacity == old(self).capacity,
            match old(self).index_of(id) {
                Some(i) => final(self).listeners@ == old(self).listeners@.remove(i),
                None => final(self).listeners@ == old(self).listeners@,
            },
    {
        if let Some(i) = self.find(id) {
            let _ = self.listeners.remove(i);
            proof {
                let s = old(self).listeners@;
                let t = self.listeners@;
                assert forall|a: int, b: int| 0 <= a < b < t.len() implies #[trigger] t[a].id
                    != #[trigger] t[b].id by {
                    let a2 = if a < i { a } else { a + 1 };
                    let b2 = if b < i { b } else { b + 1 };
                    assert(t[a] == s[a2]);
                    assert(t[b] == s[b2]);
                }
                assert forall|a: int| 0 <= a < t.len() implies #[trigger] t[a].id < self.next_listener_id by {
                    let a2 = if a < i { a } else { a + 1 };
                    assert(t[a] == s[a2]);
                }
                assert forall|a: int| 0 <= a < t.len() implies #[trigger] t[a].chunks@.len() <= self.capacity by {
                    let a2 = if a < i { a } else { a + 1 };
                    assert(t[a] == s[a2]);
                }
                assert forall|a: int, k: int| 0 <= a < t.len() && 0 <= k < t[a].chunks@.len() implies #[trigger] t[a].chunks@[k].wf() by {
                    let a2 = if a < i { a } else { a + 1 };
                    assert(t[a] == s[a2]);
                    assert(s[a2].chunks@[k].wf());
                }
            }
        }
    }

    /// Queues the chunk for every listener whose queue has room; a listener
    /// whose queue is full misses it and is marked lagged. Never waits.
    pub fn send(&mut self, chunk: &Chunk)
        requires
            old(self).wf(),
            chunk.wf(),
        ensures
            final(self).wf(),
            final(self).transmitter_present == old(self).transmitter_present,
            final(self).next_listener_id == old(self).next_listener_id,
            final(self).capacity == old(self).capacity,
            final(self).listeners@.len() == old(self).listeners@.len(),
            forall|i: int|
                0 <= i < old(self).listeners@.len() ==> {
                    let before = #[trigger] old(self).listeners@[i];
                    let after = final(self).listeners@[i];
                    &&& after.id == before.id
                    &&& if before.chunks@.len() < old(self).capacity {
                        &&& after.chunks@.len() == before.chunks@.len() + 1
                        &&& after.chunks@.subrange(0, before.chunks@.len() as int)
                            == before.chunks@
                        &&& same_chunk(after.chunks@.last(), *chunk)
                        &&& after.lagged == before.lagged
                    } else {
                        &&& after.chunks@ == before.chunks@
                        &&& after.lagged
                    }
                },
    {
        let mut i: usize = 0;
        while i < self.listeners.len()
            invariant
                i <= self.listeners@.len() == old(self).listeners@.len(),
                self.transmitter_present == old(self).transmitter_present,
                self.next_listener_id == old(self).next_listener_id,
                self.capacity == old(self).capacity,
                self.name == old(self).name,
                self.wf(),
                chunk.wf(),
                forall|k: int| i <= k < self.listeners@.len() ==> #[trigger] self.listeners@[k]
                    == old(self).listeners@[k],
                forall|k: int|
                    0 <= k < i ==> {
                        let before = #[trigger] old(self).listeners@[k];
                        let after = self.listeners@[k];
                        &&& after.id == before.id
                        &&& if before.chunks@.len() < old(self).capacity {
                            &&& after.chunks@.len() == before.chunks@.len() + 1
                            &&& after.chunks@.subrange(0, before.chunks@.len() as int)
                                == before.chunks@
                            &&& same_chunk(after.chunks@.last(), *chunk)
                            &&& after.lagged == before.lagged
                        } else {
                            &&& after.chunks@ == before.chunks@
                            &&& after.lagged
                        }
                    },
            decreases self.listeners@.len() - i,
        {
            let ghost prev = self.listeners@;
            let room = self.listeners[i].chunks.len() < self.capacity;
            let copy = chunk.duplicate();
            let q = &mut self.listeners[i];
            if room {
                q.chunks.push(copy);
            } else {
                q.lagged = true;
            }
            proof {
                let after = self.listeners@[i as int];
                assert(after.chunks@.subrange(0, prev[i as int].chunks@.len() as int) =~= prev[i as int].chunks@
                    || !room);
                assert forall|a: int, b: int| 0 <= a < b < self.listeners@.len() implies #[trigger] self.listeners@[a].id
                    != #[trigger] self.listeners@[b].id by {
                    assert(self.listeners@[a].id == prev[a].id);
                    assert(self.listeners@[b].id == prev[b].id);
                }
                assert forall|a: int| 0 <= a < self.listeners@.len() implies #[trigger] self.listeners@[a].id
                    < self.next_listener_id by {
                    assert(self.listeners@[a].id == prev[a].id);
                }
                assert forall|a: int| 0 <= a < self.listeners@.len() implies #[trigger] self.listeners@[a].chunks@.len()
                    <= self.capacity by {
                    assert(prev[a].chunks@.len() <= self.capacity);
                    if a != i {
                        assert(self.listeners@[a] == prev[a]);
                    }
                }
                assert forall|a: int, k: int|
                    0 <= a < self.listeners@.len() && 0 <= k < self.listeners@[a].chunks@.len()
                    implies #[trigger] self.listeners@[a].chunks@[k].wf() by {
                    if a != i {
                        assert(self.listeners@[a] == prev[a]);
                        assert(prev[a].chunks@[k].wf());
                    } else if k < prev[a].chunks@.len() {
                        assert(self.listeners@[a].chunks@[k] == prev[a].chunks@[k]);
                        assert(prev[a].chunks@[k].wf());
                    }
                }
            }
            i = i + 1;
        }
    }

    /// Takes the next chunk for the listener with the given id. A lagged
    /// listener that has drained its queue is told to realign, once; a listener
    /// with nothing queued waits while a transmitter is there, and has reached
    /// the end otherwise, as has an id that is not (or no longer) there.
    pub fn recv(&mut self, id: u64) -> (r: Delivery)
        requires
            old(self).wf(),
        ensures
            final(self).wf(),
            final(self).transmitter_present == old(self).transmitter_present,
            final(self).next_listener_id == old(self).next_listener_id,
            final(self).capacity == old(self).capacity,
            final(self).listeners@.len() == old(self).listeners@.len(),
            r matches Delivery::Chunk(c) ==> c.wf(),
            match old(self).index_of(id) {
                None => r is Ended && final(self).listeners@ == old(self).listeners@,
                Some(i) => {
                    let before = old(self).listeners@[i];
                    let after = final(self).listeners@[i];
                    &&& forall|k: int|
                        0 <= k < old(self).listeners@.len() && k != i
                            ==> #[trigger] final(self).listeners@[k] == old(self).listeners@[k]
                    &&& after.id == before.id
                    &&& if before.chunks@.len() > 0 {
                        &&& r matches Delivery::Chunk(c) && c == before.chunks@[0]
                        &&& after.chunks@ == before.chunks@.drop_first()
                        &&& after.lagged == before.lagged
                    } else if before.lagged {
                        &&& r is Realign
                        &&& after.chunks@ == before.chunks@
                        &&& !after.lagged
                    } else {
                        &&& if old(self).transmitter_present {
                            r is Pending
                        } else {
                            r is Ended
                        }
                        &&& after.chunks@ == before.chunks@
                        &&& !after.lagged
                    }
                },
            },
    {
        match self.find(id) {
            None => Delivery::Ended,
            Some(i) => {
                let ghost prev = self.listeners@;
                let present = self.transmitter_present;
                let q = &mut self.listeners[i];
                let r = if q.chunks.len() > 0 {
                    let c = q.chunks.remove(0);
                    Delivery::Chunk(c)
                } else if q.lagged {
                    q.lagged = false;
                    Delivery::Realign
                } else if present {
                    Delivery::Pending
                } else {
                    Delivery::Ended
                };
                proof {
                    assert(self.listeners@[i as int].chunks@ =~= prev[i as int].chunks@.drop_first()
                        || prev[i as int].chunks@.len() == 0);
                    assert forall|a: int, b: int| 0 <= a < b < self.listeners@.len() implies #[trigger] self.listeners@[a].id
                        != #[trigger] self.listeners@[b].id by {
                        assert(self.listeners@[a].id == prev[a].id);
                        assert(self.listeners@[b].id == prev[b].id);
                    }
                    assert forall|a: int| 0 <= a < self.listeners@.len() implies #[trigger] self.listeners@[a].id
                        < self.next_listener_id by {
                        assert(self.listeners@[a].id == prev[a].id);
                    }
                    assert forall|a: int| 0 <= a < self.listeners@.len() implies #[trigger] self.listeners@[a].chunks@.len()
                        <= self.capacity by {
                        assert(prev[a].chunks@.len() <= self.capacity);
                        if a != i {
                            assert(self.listeners@[a] == prev[a]);
                        } else {
                            if prev[a].chunks@.len() > 0 {
                                assert(self.listeners@[a].chunks@ =~= prev[a].chunks@.drop_first());
                            } else {
                                assert(self.listeners@[a].chunks@ == prev[a].chunks@);
                            }
                        }
                    }
                    assert forall|a: int, k: int|
                        0 <= a < self.listeners@.len() && 0 <= k < self.listeners@[a].chunks@.len()
                        implies #[trigger] self.listeners@[a].chunks@[k].wf() by {
                        if a != i {
                            assert(self.listeners@[a] == prev[a]);
                            assert(prev[a].chunks@[k].wf());
                        } else if prev[a].chunks@.len() > 0 {
                            assert(self.listeners@[a].chunks@[k] == prev[a].chunks@[k + 1]);
                            assert(prev[a].chunks@[k + 1].wf());
                        } else {
                            assert(self.listeners@[a].chunks@ == prev[a].chunks@);
                            assert(prev[a].chunks@[k].wf());
                        }
                    }
                    if prev[i as int].chunks@.len() > 0 {
                        assert(prev[i as int].chunks@[0].wf());
                    }
                }
                r
            },
        }
    }
}

/// What one listener does with what its queue delivers: it rewrites timecodes,
/// then holds chunks back until a starting point.
pub struct ListenerPipeline {
    pub timecode_fixer: ChunkTimecodeFixer,
    pub filter: StartingPointFilter,
}

impl ListenerPipeline {
    pub fn new() -> (r: ListenerPipeline)
        ensures
            r.timecode_fixer.last_observed_out == 0,
            r.timecode_fixer.offset == 0,
            r.filter.seeking,
    {
        ListenerPipeline { timecode_fixer: ChunkTimecodeFixer::new(), filter: StartingPointFilter::new() }
    }

    /// Handles one delivery and returns the chunk to send to the listener, if
    /// any. A chunk is fixed and then filtered. After a `Realign` (the listener
    /// missed chunks) the filter seeks a starting point again. `Pending` and
    /// `Ended` change nothing.
    pub fn on_delivery(&mut self, delivery: Delivery) -> (r: Option<Chunk>)
        requires
            delivery matches Delivery::Chunk(c) ==> c.wf(),
        ensures
            match delivery {
                Delivery::Chunk(c) => {
                    &&& (r is None) == (old(self).filter.seeking && c is ClusterBody)
                    &&& final(self).filter.seeking == (old(self).filter.seeking && c is ClusterBody)
                    &&& r matches Some(out) ==> out.wf() && fixes(
                        old(self).timecode_fixer,
                        c,
                        final(self).timecode_fixer,
                        out,
                    )
                    &&& r is None ==> final(self).timecode_fixer == old(self).timecode_fixer
                },
                Delivery::Realign => {
                    &&& r is None
                    &&& final(self).filter.seeking
                    &&& final(self).timecode_fixer == old(self).timecode_fixer
                },
                _ => r is None && final(self).filter == old(self).filter
                    && final(self).timecode_fixer == old(self).timecode_fixer,
            },
    {
        match delivery {
            Delivery::Chunk(chunk) => {
                let fixed = self.timecode_fixer.process(chunk);
                self.filter.process(fixed)
            },
            Delivery::Realign => {
                self.filter.reset();
                None
            },
            _ => None,
        }
    }
}

} // verus!
