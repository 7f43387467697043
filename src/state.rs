use std::collections::HashMap;
use std::collections::VecDeque;
use vstd::prelude::*;

use crate::error::BridgeError;

verus! {

broadcast use vstd::std_specs::hash::group_hash_axioms;

/// The region last grown into one instance's memory for returned payloads:
/// its first page and how many pages it spans.
#[derive(Clone, Copy, Debug, PartialEq, Eq, Structural)]
pub struct GrowCache {
    pub offset: u32,
    pub pages: u32,
}

struct CacheSlot {
    instance: String,
    cache: GrowCache,
}

/// What the bridge state holds, seen mathematically.
pub ghost struct BridgeModel {
    /// The ticket that will be issued next; every ticket below it was issued.
    pub next_ticket: int,
    /// The pending buffers of each issued ticket, oldest first.
    pub queues: Map<i32, Seq<Seq<u8>>>,
    /// The growth cache entry of each instance name.
    pub caches: Map<Seq<char>, GrowCache>,
}

impl BridgeModel {
    /// Tickets `0..next_ticket` are exactly the ones with a queue.
    pub open spec fn valid(self) -> bool {
        &&& 0 <= self.next_ticket <= i32::MAX
        &&& forall|t: i32| #[trigger] self.queues.contains_key(t) <==> 0 <= t < self.next_ticket
    }

    /// The model after `put(t, b)`: `b` goes to the back of the queue of
    /// `t`; nothing changes for a ticket that was never issued.
    pub open spec fn put(self, t: i32, b: Seq<u8>) -> BridgeModel {
        if self.queues.contains_key(t) {
            BridgeModel { queues: self.queues.insert(t, self.queues[t].push(b)), ..self }
        } else {
            self
        }
    }

    /// What `put(t, _)` returns.
    pub open spec fn put_result(self, t: i32) -> Result<(), BridgeError> {
        if self.queues.contains_key(t) {
            Ok(())
        } else {
            Err(BridgeError::UnknownTicket)
        }
    }

    /// What `get(t)` returns: the oldest buffer of the queue of `t`.
    pub open spec fn get_result(self, t: i32) -> Result<Seq<u8>, BridgeError> {
        if !self.queues.contains_key(t) {
            Err(BridgeError::UnknownTicket)
        } else if self.queues[t].len() == 0 {
            Err(BridgeError::EmptyQueue)
        } else {
            Ok(self.queues[t][0])
        }
    }

    /// The model after `get(t)`: the oldest buffer of `t` is gone, if there
    /// was one.
    pub open spec fn after_get(self, t: i32) -> BridgeModel {
        if self.queues.contains_key(t) && self.queues[t].len() > 0 {
            BridgeModel { queues: self.queues.insert(t, self.queues[t].drop_first()), ..self }
        } else {
            self
        }
    }

    pub open spec fn cache_of(self, instance: Seq<char>) -> Option<GrowCache> {
        if self.caches.contains_key(instance) {
            Some(self.caches[instance])
        } else {
            None
        }
    }
}

/// A byte buffer result, seen as a byte sequence.
pub open spec fn bytes_result(r: Result<Vec<u8>, BridgeError>) -> Result<Seq<u8>, BridgeError> {
    match r {
        Ok(b) => Ok(b@),
        Err(e) => Err(e),
    }
}

/// The buffers of one queue, as byte sequences.
pub open spec fn buffers_of(q: VecDeque<Vec<u8>>) -> Seq<Seq<u8>> {
    q@.map_values(|b: Vec<u8>| b@)
}

/// The whole state of the bridge: ticket counter, queue pool and growth
/// cache, owned by the host and passed to every bridge operation.
pub struct GlobalState {
    counter: i32,
    grow_cache: Vec<CacheSlot>,
    queue_pool: HashMap<i32, VecDeque<Vec<u8>>>,
    cache_model: Ghost<Map<Seq<char>, GrowCache>>,
}

impl View for GlobalState {
    type V = BridgeModel;

    closed spec fn view(&self) -> BridgeModel {
        BridgeModel {
            next_ticket: self.counter as int,
            queues: Map::new(
                |t: i32| self.queue_pool@.contains_key(t),
                |t: i32| buffers_of(self.queue_pool@[t]),
            ),
            caches: self.cache_model@,
        }
    }
}

impl GlobalState {
    /// Internal consistency: the queue pool holds exactly the issued tickets,
    /// and the cache slots hold each instance name once, agreeing with the
    /// cache model.
    pub closed spec fn wf(&self) -> bool {
        &&& 0 <= self.counter
        &&& forall|t: i32| #[trigger] self.queue_pool@.contains_key(t) <==> 0 <= t < self.counter
        &&& forall|i: int, j: int|
            0 <= i < j < self.grow_cache@.len() ==> #[trigger] self.grow_cache@[i].instance@
                != #[trigger] self.grow_cache@[j].instance@
        &&& forall|i: int|
            0 <= i < self.grow_cache@.len() ==> {
                &&& self.cache_model@.contains_key(#[trigger] self.grow_cache@[i].instance@)
                &&& self.cache_model@[self.grow_cache@[i].instance@] == self.grow_cache@[i].cache
            }
        &&& forall|n: Seq<char>|
            #[trigger] self.cache_model@.contains_key(n) ==> exists|i: int|
                0 <= i < self.grow_cache@.len() && #[trigger] self.grow_cache@[i].instance@ == n
    }

    /// The model of a well-formed state is valid.
    pub proof fn lemma_valid(&self)
        requires
            self.wf(),
        ensures
            self@.valid(),
    {
        assert forall|t: i32| #[trigger] self@.queues.contains_key(t) <==> 0 <= t < self@.next_ticket by {
            assert(self.queue_pool@.contains_key(t) <==> 0 <= t < self.counter);
        }
    }

    /// An empty bridge: no ticket issued, no queue, no cache entry.
    pub fn new() -> (r: Self)
        ensures
            r.wf(),
            r@.next_ticket == 0,
            r@.queues == Map::<i32, Seq<Seq<u8>>>::empty(),
            r@.caches == Map::<Seq<char>, GrowCache>::empty(),
    {
        let r = GlobalState {
            counter: 0,
            grow_cache: Vec::new(),
            queue_pool: HashMap::new(),
            cache_model: Ghost(Map::empty()),
        };
        assert(r@.queues =~= Map::<i32, Seq<Seq<u8>>>::empty());
        r
    }

    /// The number of tickets issued so far.
    pub fn tickets_issued(&self) -> (r: i32)
        requires
            self.wf(),
        ensures
            r == self@.next_ticket,
    {
        self.counter
    }

    /// Issues a fresh ticket, one above the last, and registers an empty
    /// queue for it. The ticket space ends at `i32::MAX`.
    pub fn new_queue(&mut self) -> (id: i32)
        requires
            old(self).wf(),
            old(self)@.next_ticket < i32::MAX,
        ensures
            final(self).wf(),
            id == old(self)@.next_ticket,
            !old(self)@.queues.contains_key(id),
            final(self)@.next_ticket == old(self)@.next_ticket + 1,
            final(self)@.queues == old(self)@.queues.insert(id, Seq::<Seq<u8>>::empty()),
            final(self)@.caches == old(self)@.caches,
    {
        let id = self.counter;
        self.counter = self.counter + 1;
        let q: VecDeque<Vec<u8>> = VecDeque::new();
        assert(buffers_of(q) =~= Seq::<Seq<u8>>::empty());
        self.queue_pool.insert(id, q);
        assert forall|t: i32| #[trigger] self.queue_pool@.contains_key(t) <==> 0 <= t < self.counter by {
            assert(t != id ==> (self.queue_pool@.contains_key(t) == old(self).queue_pool@.contains_key(t)));
        }
        assert(self.grow_cache@ == old(self).grow_cache@);
        assert(!old(self)@.queues.contains_key(id));
        assert(self@.queues =~= old(self)@.queues.insert(id, Seq::<Seq<u8>>::empty()));
        id
    }

    /// Appends `buf` to the queue of ticket `queue_id`.
    pub fn put_buffer(&mut self, queue_id: i32, buf: Vec<u8>) -> (r: Result<(), BridgeError>)
        requires
            old(self).wf(),
        ensures
            final(self).wf(),
            final(self)@ == old(self)@.put(queue_id, buf@),
            r == old(self)@.put_result(queue_id),
    {
        match self.queue_pool.remove(&queue_id) {
            Some(mut q) => {
                let ghost before = q;
                q.push_back(buf);
                assert(buffers_of(q) =~= buffers_of(before).push(buf@));
                self.queue_pool.insert(queue_id, q);
                proof {
                    self.lemma_pool_replaced(*old(self), queue_id);
                }
                assert(self@.queues =~= old(self)@.queues.insert(
                    queue_id,
                    old(self)@.queues[queue_id].push(buf@),
                ));
                Ok(())
            },
            None => {
                assert(self.queue_pool@ =~= old(self).queue_pool@);
                assert(self@.queues =~= old(self)@.queues);
                Err(BridgeError::UnknownTicket)
            },
        }
    }

    /// Removes and returns the oldest buffer of ticket `queue_id`.
    pub fn read_buffer(&mut self, queue_id: i32) -> (r: Result<Vec<u8>, BridgeError>)
        requires
            old(self).wf(),
        ensures
            final(self).wf(),
            final(self)@ == old(self)@.after_get(queue_id),
            bytes_result(r) == old(self)@.get_result(queue_id),
    {
        match self.queue_pool.remove(&queue_id) {
            Some(mut q) => {
                let ghost before = q;
                let front = q.pop_front();
                self.queue_pool.insert(queue_id, q);
                proof {
                    self.lemma_pool_replaced(*old(self), queue_id);
                }
                match front {
                    Some(b) => {
                        assert(buffers_of(q) =~= buffers_of(before).drop_first());
                        assert(self@.queues =~= old(self)@.queues.insert(
                            queue_id,
                            old(self)@.queues[queue_id].drop_first(),
                        ));
                        Ok(b)
                    },
                    None => {
                        assert(self@.queues =~= old(self)@.queues);
                        Err(BridgeError::EmptyQueue)
                    },
                }
            },
            None => {
                assert(self.queue_pool@ =~= old(self).queue_pool@);
                assert(self@.queues =~= old(self)@.queues);
                Err(BridgeError::UnknownTicket)
            },
        }
    }

    /// Length of the oldest buffer of ticket `queue_id`, which stays queued.
    pub fn front_len(&self, queue_id: i32) -> (r: Result<usize, BridgeError>)
        requires
            self.wf(),
        ensures
            match self@.get_result(queue_id) {
                Ok(b) => r is Ok && r->Ok_0 == b.len(),
                Err(e) => r == Err::<usize, BridgeError>(e),
            },
    {
        match self.queue_pool.get(&queue_id) {
            Some(q) => {
                if q.len() == 0 {
                    Err(BridgeError::EmptyQueue)
                } else {
                    Ok(q[0].len())
                }
            },
            None => Err(BridgeError::UnknownTicket),
        }
    }

    /// Replacing the queue of an issued ticket keeps the state well formed.
    proof fn lemma_pool_replaced(&self, prev: Self, t: i32)
        requires
            prev.wf(),
            prev.queue_pool@.contains_key(t),
            self.counter == prev.counter,
            self.grow_cache@ == prev.grow_cache@,
            self.cache_model == prev.cache_model,
            self.queue_pool@.dom() == prev.queue_pool@.dom(),
        ensures
            self.wf(),
    {
    }

    /// Position of the cache slot of `instance`, if it has one.
    fn find_slot(&self, instance: &String) -> (r: Option<usize>)
        requires
            self.wf(),
        ensures
            match r {
                Some(i) => i < self.grow_cache@.len() && self.grow_cache@[i as int].instance@
                    == instance@,
                None => !self.cache_model@.contains_key(instance@),
            },
    {
        let mut i: usize = 0;
        while i < self.grow_cache.len()
            invariant
                self.wf(),
                0 <= i <= self.grow_cache@.len(),
                forall|j: int| 0 <= j < i ==> #[trigger] self.grow_cache@[j].instance@ != instance@,
            decreases self.grow_cache@.len() - i,
        {
            if self.grow_cache[i].instance == *instance {
                return Some(i);
            }
            i = i + 1;
        }
        None
    }

    /// The growth cache entry of `instance_name`, if one was made.
    pub fn get_cache(&self, instance_name: &String) -> (r: Option<&GrowCache>)
        requires
            self.wf(),
        ensures
            match r {
                Some(c) => self@.cache_of(instance_name@) == Some(*c),
                None => self@.cache_of(instance_name@) == None::<GrowCache>,
            },
    {
        match self.find_slot(instance_name) {
            Some(i) => Some(&self.grow_cache[i].cache),
            None => None,
        }
    }

    /// Records `{offset, pages}` as the growth cache entry of `instance_name`.
    pub fn update_cache(&mut self, instance_name: String, offset: u32, pages: u32)
        requires
            old(self).wf(),
        ensures
            final(self).wf(),
            final(self)@.next_ticket == old(self)@.next_ticket,
            final(self)@.queues == old(self)@.queues,
            final(self)@.caches == old(self)@.caches.insert(
                instance_name@,
                GrowCache { offset, pages },
            ),
    {
        let cache = GrowCache { offset, pages };
        let ghost name = instance_name@;
        let ghost mut pos: int = 0;
        match self.find_slot(&instance_name) {
            Some(i) => {
                self.grow_cache.set(i, CacheSlot { instance: instance_name, cache });
                proof {
                    pos = i as int;
                }
            },
            None => {
                proof {
                    pos = self.grow_cache@.len() as int;
                }
                self.grow_cache.push(CacheSlot { instance: instance_name, cache });
            },
        }
        assert(self.grow_cache@[pos].instance@ == name);
        self.cache_model = Ghost(self.cache_model@.insert(name, cache));
        assert forall|n: Seq<char>| #[trigger] self.cache_model@.contains_key(n) implies exists|i: int|
            0 <= i < self.grow_cache@.len() && #[trigger] self.grow_cache@[i].instance@ == n by {
            if n != name {
                let k = choose|k: int|
                    0 <= k < old(self).grow_cache@.len() && #[trigger] old(self).grow_cache@[k].instance@ == n;
                assert(self.grow_cache@[k].instance@ == n);
            } else {
                assert(0 <= pos < self.grow_cache@.len() && self.grow_cache@[pos].instance@ == n);
            }
        }
        assert(self@.queues =~= old(self)@.queues);
    }
}

} // verus!
