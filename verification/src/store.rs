use vstd::prelude::*;
use vstd::multiset::Multiset;
use crate::errors::{ErrorQueue, QsError, ERROR_QUEUE_DEPTH};
use crate::measurement::{
    Measurement, insert_sorted, total_samples, capped_positions, copied_channel,
};
use crate::payload::decode;
use heapless::binary_heap::{BinaryHeap, Max};

verus! {

broadcast use {
    vstd::seq_lib::group_to_multiset_ensures,
    vstd::multiset::group_multiset_axioms,
};

/// Hard cap on concurrently open sessions.
pub const STORE_CAPACITY: usize = 32;

/// Priority structure over the open session ids, greatest (most recently
/// issued) id on top. Holds a fixed-capacity max-heap of an outside crate;
/// Verus sees it only through `id_heap_ids` and the wrappers below.
#[verifier::external_body]
pub struct IdHeap {
    heap: BinaryHeap<u32, Max, STORE_CAPACITY>,
}

/// The ids the heap holds.
pub uninterp spec fn id_heap_ids(h: IdHeap) -> Multiset<u32>;

impl IdHeap {
    /// Relies on heapless's `BinaryHeap::new`: a new heap is empty.
    #[verifier::external_body]
    fn new() -> (r: IdHeap)
        ensures
            id_heap_ids(r) == Multiset::<u32>::empty(),
    {
        IdHeap { heap: BinaryHeap::new() }
    }

    /// Relies on heapless's `BinaryHeap::push`: it succeeds exactly below
    /// the heap's fixed capacity, and then adds the item.
    #[verifier::external_body]
    fn push(&mut self, id: u32) -> (r: bool)
        ensures
            r <==> id_heap_ids(*old(self)).len() < STORE_CAPACITY,
            r ==> id_heap_ids(*final(self)) == id_heap_ids(*old(self)).insert(id),
            !r ==> id_heap_ids(*final(self)) == id_heap_ids(*old(self)),
    {
        self.heap.push(id).is_ok()
    }

    /// Relies on heapless's `BinaryHeap::pop` on a max-heap: it removes and
    /// returns a greatest item, or nothing from an empty heap.
    #[verifier::external_body]
    fn pop(&mut self) -> (r: Option<u32>)
        ensures
            match r {
                Some(x) => id_heap_ids(*old(self)).contains(x)
                    && id_heap_ids(*final(self)) == id_heap_ids(*old(self)).remove(x)
                    && forall|y: u32| id_heap_ids(*old(self)).contains(y) ==> y <= x,
                None => id_heap_ids(*old(self)).len() == 0
                    && id_heap_ids(*final(self)) == id_heap_ids(*old(self)),
            },
    {
        self.heap.pop()
    }

    /// Relies on heapless's `BinaryHeap::peek` on a max-heap: it returns a
    /// greatest item without removing it, or nothing from an empty heap.
    #[verifier::external_body]
    fn peek(&self) -> (r: Option<u32>)
        ensures
            match r {
                Some(x) => id_heap_ids(*self).contains(x)
                    && forall|y: u32| id_heap_ids(*self).contains(y) ==> y <= x,
                None => id_heap_ids(*self).len() == 0,
            },
    {
        self.heap.peek().copied()
    }
}

/// The bounded multi-session store: sessions keyed by a monotonically
/// increasing id, with a priority structure for fast most-recent lookup.
pub struct Store {
    ids: IdHeap,
    sessions: Vec<Measurement>,
    next_id: u32,
}

impl View for Store {
    type V = Seq<Measurement>;

    closed spec fn view(&self) -> Seq<Measurement> {
        self.sessions@
    }
}

impl Store {
    /// The next id the store will issue; ids start at 1, since 0 is the
    /// "no session" sentinel, and are never reissued while the store lives.
    pub closed spec fn spec_next_id(&self) -> u32 {
        self.next_id
    }

    /// The visible part of the store invariant: sessions strictly ascending
    /// by id, each well formed, ids drawn from `1..next_id`, and no more
    /// sessions than the capacity.
    pub open spec fn wf(self) -> bool {
        &&& forall|i: int, j: int| 0 <= i < j < self@.len() ==> self@[i].id < self@[j].id
        &&& forall|i: int| 0 <= i < self@.len() ==> (#[trigger] self@[i]).wf()
        &&& forall|i: int| 0 <= i < self@.len()
            ==> 1 <= (#[trigger] self@[i]).id < self.spec_next_id()
        &&& self@.len() <= STORE_CAPACITY
        &&& self.spec_next_id() >= 1
    }

    /// The full store invariant: `wf`, and the id heap holds exactly the
    /// open sessions' ids.
    pub closed spec fn inv(self) -> bool {
        &&& self.wf()
        &&& id_heap_ids(self.ids) == self.sessions@.map_values(|m: Measurement| m.id).to_multiset()
    }

    /// The invariant is never weaker than its visible part.
    pub proof fn lemma_inv_wf(&self)
        requires
            self.inv(),
        ensures
            self.wf(),
    {
    }

    pub fn new() -> (r: Store)
        ensures
            r.inv(),
            r@ == Seq::<Measurement>::empty(),
            r.spec_next_id() == 1,
    {
        let r = Store { ids: IdHeap::new(), sessions: Vec::new(), next_id: 1 };
        proof {
            assert(r.sessions@.map_values(|m: Measurement| m.id) =~= Seq::<u32>::empty());
            assert(Seq::<u32>::empty().to_multiset() =~= Multiset::<u32>::empty());
        }
        r
    }

    /// Open a new session with the given channel count and return its id:
    /// a fresh, never-before-issued id on success, or the sentinel 0 when
    /// the store is at capacity or the id range is spent.
    pub fn create_measurement(&mut self, channels: u8) -> (r: u32)
        requires
            old(self).inv(),
        ensures
            final(self).inv(),
            r == 0 ==> final(self)@ == old(self)@
                && final(self).spec_next_id() == old(self).spec_next_id()
                && (old(self)@.len() == STORE_CAPACITY || old(self).spec_next_id() == u32::MAX),
            r != 0 ==> old(self)@.len() < STORE_CAPACITY
                && r == old(self).spec_next_id()
                && final(self).spec_next_id() == r + 1
                && final(self)@.len() == old(self)@.len() + 1
                && final(self)@.drop_last() == old(self)@
                && final(self)@.last().id == r
                && final(self)@.last().active_channels == channels
                && final(self)@.last()@ == Seq::<crate::payload::PayloadModel>::empty(),
    {
        if self.next_id == u32::MAX {
            return 0;
        }
        let id = self.next_id;
        let ghost pre = *self;
        if self.ids.push(id) {
            let m = Measurement::new(id, channels);
            self.sessions.push(m);
            self.next_id = id + 1;
            proof {
                assert(self.sessions@.map_values(|mm: Measurement| mm.id)
                    =~= pre.sessions@.map_values(|mm: Measurement| mm.id).push(id));
                assert(self@.drop_last() =~= pre.sessions@);
            }
            id
        } else {
            proof {
                assert(id_heap_ids(pre.ids).len() >= STORE_CAPACITY);
            }
            0
        }
    }

    /// Locate the session holding `id`: the heap's top is checked first —
    /// the most recently issued id is the common case — and the bounded
    /// session list is scanned otherwise.
    fn find_index(&self, id: u32) -> (r: Option<usize>)
        requires
            self.inv(),
        ensures
            match r {
                Some(i) => i < self@.len() && self@[i as int].id == id,
                None => forall|i: int| 0 <= i < self@.len() ==> self@[i].id != id,
            },
    {
        let ghost ids_seq = self.sessions@.map_values(|m: Measurement| m.id);
        match self.ids.peek() {
            None => {
                proof {
                    assert(ids_seq.to_multiset().len() == 0);
                    assert(ids_seq.len() == 0);
                }
                return None;
            },
            Some(top) => {
                if top == id {
                    proof {
                        assert(ids_seq.to_multiset().contains(top));
                        assert(ids_seq.contains(top));
                        let j = choose|j: int| 0 <= j < ids_seq.len() && ids_seq[j] == top;
                        let last = ids_seq.len() - 1;
                        assert(ids_seq[last] == self@[last].id);
                        assert(ids_seq.to_multiset().contains(ids_seq[last])) by {
                            assert(ids_seq.contains(ids_seq[last]));
                        }
                        assert(ids_seq[last] <= top);
                        assert(self@[j].id <= self@[last].id);
                        assert(ids_seq[last] == top);
                    }
                    return Some(self.sessions.len() - 1);
                }
            },
        }
        let mut i: usize = 0;
        while i < self.sessions.len()
            invariant
                i <= self@.len(),
                forall|k: int| 0 <= k < i ==> self@[k].id != id,
            decreases self@.len() - i,
        {
            if self.sessions[i].id == id {
                return Some(i);
            }
            i += 1;
        }
        None
    }

    /// Whether a session with this id is open.
    pub open spec fn spec_has_session(self, id: u32) -> bool {
        exists|i: int| 0 <= i < self@.len() && self@[i].id == id
    }

    /// Close the session holding `id` and release its slot; an absent id is
    /// a no-op, and other sessions are untouched either way.
    pub fn drop_measurement(&mut self, id: u32)
        requires
            old(self).inv(),
        ensures
            final(self).inv(),
            final(self).spec_next_id() == old(self).spec_next_id(),
            !old(self).spec_has_session(id) ==> final(self)@ == old(self)@,
            forall|i: int| 0 <= i < old(self)@.len() && old(self)@[i].id == id
                ==> final(self)@ == old(self)@.remove(i),
    {
        let found = self.find_index(id);
        let i = match found {
            None => {
                return ;
            },
            Some(i) => i,
        };
        let ghost pre = *self;
        let ghost pre_ids = pre.sessions@.map_values(|m: Measurement| m.id);
        let ghost target = pre_ids.to_multiset().remove(id);
        self.sessions.remove(i);
        proof {
            assert(self.sessions@.map_values(|m: Measurement| m.id)
                =~= pre_ids.remove(i as int));
            assert(pre_ids[i as int] == pre.sessions@[i as int].id);
            assert(pre_ids.remove(i as int).to_multiset() =~= target);
            assert(pre_ids.contains(pre_ids[i as int]));
            assert(pre_ids.to_multiset().contains(id));
            pre_ids.to_multiset_ensures();
            assert(id_heap_ids(pre.ids).len() == pre_ids.len());
        }

        // Rebuild the heap without `id`: pop down to it, stash what came
        // off above it, and push the stash back.
        let mut stash: Vec<u32> = Vec::new();
        let mut done = false;
        proof {
            assert(stash@.to_multiset() =~= Multiset::<u32>::empty());
            assert(id_heap_ids(self.ids).add(stash@.to_multiset()) =~= target.insert(id));
        }
        while !done
            invariant
                0 <= i < pre.sessions@.len(),
                pre_ids.len() <= STORE_CAPACITY,
                done ==> id_heap_ids(self.ids).add(stash@.to_multiset()) == target,
                !done ==> id_heap_ids(self.ids).add(stash@.to_multiset())
                    == target.insert(id),
                stash@.to_multiset().count(id) == 0,
                self.sessions@ == pre.sessions@.remove(i as int),
                self.next_id == pre.next_id,
                id_heap_ids(self.ids).len() + stash@.len() + (if done { 1int } else { 0int })
                    == pre_ids.len(),
            decreases id_heap_ids(self.ids).len(),
        {
            proof {
                assert(id_heap_ids(self.ids).add(stash@.to_multiset()).count(id) >= 1);
                assert(id_heap_ids(self.ids).count(id) >= 1);
                assert(id_heap_ids(self.ids).contains(id));
            }
            let ghost ms_before = id_heap_ids(self.ids);
            let ghost stash_ms = stash@.to_multiset();
            match self.ids.pop() {
                Some(x) => {
                    if x == id {
                        done = true;
                        proof {
                            assert forall|y: u32|
                                id_heap_ids(self.ids).add(stash_ms).count(y)
                                    == target.count(y) by {
                                assert(ms_before.add(stash_ms).count(y)
                                    == target.insert(id).count(y));
                                assert(id_heap_ids(self.ids) == ms_before.remove(id));
                            }
                            assert(id_heap_ids(self.ids).add(stash_ms) =~= target);
                        }
                    } else {
                        proof {
                            assert(stash@.push(x).to_multiset()
                                =~= stash@.to_multiset().insert(x));
                            assert(id_heap_ids(self.ids).add(stash@.to_multiset().insert(x))
                                =~= ms_before.add(stash@.to_multiset()));
                        }
                        stash.push(x);
                    }
                },
                None => {
                    proof {
                        assert(false);
                    }
                },
            }
        }
        while stash.len() > 0
            invariant
                0 <= i < pre.sessions@.len(),
                pre_ids.len() <= STORE_CAPACITY,
                id_heap_ids(self.ids).add(stash@.to_multiset()) == target,
                id_heap_ids(self.ids).len() + stash@.len() + 1 == pre_ids.len(),
                self.sessions@ == pre.sessions@.remove(i as int),
                self.next_id == pre.next_id,
            decreases stash@.len(),
        {
            let ghost stash_pre = stash@;
            let x = match stash.pop() {
                Some(x) => x,
                None => {
                    proof {
                        assert(false);
                    }
                    0
                },
            };
            proof {
                assert(stash_pre =~= stash@.push(x));
                assert(stash_pre.to_multiset() =~= stash@.to_multiset().insert(x));
            }
            let ok = self.ids.push(x);
            proof {
                assert(ok);
                assert(id_heap_ids(self.ids).add(stash@.to_multiset()) =~= target);
            }
        }
        proof {
            assert(stash@.to_multiset() =~= Multiset::<u32>::empty());
            assert(id_heap_ids(self.ids) =~= target);
            assert(id_heap_ids(self.ids)
                == self.sessions@.map_values(|m: Measurement| m.id).to_multiset());
        }
    }

    /// Ingest one wire frame into the session holding `id`. The frame's
    /// sample count is returned on success — also for a deduplicated
    /// retransmission — and 0 when the id is unknown or the frame is
    /// rejected; a rejected frame's message goes onto the error queue, and
    /// no other session is touched in any case.
    pub fn add_signals(&mut self, errors: &mut ErrorQueue, id: u32, data: &[u8]) -> (r: u32)
        requires
            old(self).inv(),
            old(errors).wf(),
        ensures
            final(self).inv(),
            final(errors).wf(),
            final(self).spec_next_id() == old(self).spec_next_id(),
            !old(self).spec_has_session(id) ==> r == 0
                && final(self)@ == old(self)@
                && final(errors)@ == old(errors)@,
            forall|i: int| 0 <= i < old(self)@.len() && (#[trigger] old(self)@[i]).id == id
                ==> {
                    &&& final(self)@.len() == old(self)@.len()
                    &&& (forall|j: int| 0 <= j < old(self)@.len() && j != i
                        ==> final(self)@[j] == old(self)@[j])
                    &&& final(self)@[i].id == id
                    &&& final(self)@[i].active_channels == old(self)@[i].active_channels
                    &&& match decode(data@) {
                        Ok(p) => final(self)@[i]@ == insert_sorted(old(self)@[i]@, p)
                            && r == p.sample_count()
                            && final(errors)@ == old(errors)@,
                        Err(e) => final(self)@[i]@ == old(self)@[i]@
                            && r == 0
                            && (old(errors)@.len() < ERROR_QUEUE_DEPTH
                                ==> final(errors)@ == old(errors)@.push(e.spec_message()))
                            && (old(errors)@.len() >= ERROR_QUEUE_DEPTH
                                ==> final(errors)@ == old(errors)@),
                    }
                },
    {
        let idx = match self.find_index(id) {
            None => {
                return 0;
            },
            Some(i) => i,
        };
        let ghost pre = *self;
        let res = self.sessions[idx].consume(data);
        proof {
            assert(self.sessions@.map_values(|m: Measurement| m.id)
                =~= pre.sessions@.map_values(|m: Measurement| m.id));
        }
        match res {
            Ok(n) => n,
            Err(e) => {
                errors.push(e.message());
                0
            },
        }
    }

    /// Reconstruct timestamp positions for session `id` (4.5's read path):
    /// `NotFound` exactly when the id is unknown, otherwise the session's
    /// included sample positions, capped at `capacity`.
    pub fn interpret_timestamps(&self, id: u32, seed: u64, threshold: u32, scale: u32, capacity: u32) -> (r: Result<Vec<u64>, QsError>)
        requires
            self.inv(),
            scale >= 1,
            forall|i: int| 0 <= i < self@.len() && (#[trigger] self@[i]).id == id
                ==> total_samples(self@[i]@) <= usize::MAX,
        ensures
            match r {
                Ok(v) => self.spec_has_session(id)
                    && forall|i: int| 0 <= i < self@.len() && (#[trigger] self@[i]).id == id
                        ==> v@ == capped_positions(
                            seed, scale, threshold,
                            total_samples(self@[i]@), capacity as int,
                        ),
                Err(e) => e == QsError::NotFound && !self.spec_has_session(id),
            },
    {
        match self.find_index(id) {
            None => Err(QsError::NotFound),
            Some(i) => Ok(self.sessions[i].interpret_timestamp_positions(seed, threshold, scale, capacity)),
        }
    }

    /// Copy downsampled channel values for session `id` (4.6's read path):
    /// `NotFound` exactly when the id is unknown, otherwise one column per
    /// active channel at the same capped positions as the timestamp path,
    /// with the included-position count.
    pub fn copy_signals(&self, id: u32, seed: u64, threshold: u32, scale: u32, capacity: u32) -> (r: Result<(Vec<Vec<i16>>, u32), QsError>)
        requires
            self.inv(),
            scale >= 1,
            forall|i: int| 0 <= i < self@.len() && (#[trigger] self@[i]).id == id
                ==> total_samples(self@[i]@) <= usize::MAX,
        ensures
            match r {
                Ok(out) => self.spec_has_session(id)
                    && forall|i: int| 0 <= i < self@.len() && (#[trigger] self@[i]).id == id
                        ==> {
                            let pos = capped_positions(
                                seed, scale, threshold,
                                total_samples(self@[i]@), capacity as int,
                            );
                            &&& out.1 == pos.len()
                            &&& out.0@.len() == Measurement::spec_channel_slots(self@[i].active_channels)
                            &&& forall|c: int| 0 <= c < out.0@.len()
                                ==> (#[trigger] out.0@[c])@ == copied_channel(self@[i]@, c, pos)
                        },
                Err(e) => e == QsError::NotFound && !self.spec_has_session(id),
            },
    {
        match self.find_index(id) {
            None => Err(QsError::NotFound),
            Some(i) => Ok(self.sessions[i].copy_signal_values(seed, threshold, scale, capacity)),
        }
    }
}

} // verus!
