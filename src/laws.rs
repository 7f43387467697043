//! Properties of the bridge that span several operations, proved over the
//! models that the operations' contracts speak of.
use vstd::prelude::*;

use crate::error::BridgeError;
use crate::memory::{write_spec, zeros};
use crate::paging::{pages_for, MAX_PAGES, PAGE_SIZE};
use crate::state::BridgeModel;
use crate::state::GrowCache;
use crate::write_back::{commit, lemma_placement_in_bounds, plan_spec, WriteBack};

verus! {

/// Tickets issued one after another are strictly increasing, whatever else
/// happens between the issues, and so pairwise distinct. Issue `i` takes
/// `tickets[i]` from the counter of `before[i]` and leaves `after[i]` with
/// the counter one higher; between issues the counter does not go down.
pub proof fn lemma_tickets_distinct(
    before: Seq<BridgeModel>,
    after: Seq<BridgeModel>,
    tickets: Seq<i32>,
)
    requires
        before.len() == tickets.len(),
        after.len() == tickets.len(),
        forall|i: int|
            0 <= i < tickets.len() ==> {
                &&& #[trigger] tickets[i] == before[i].next_ticket
                &&& after[i].next_ticket == before[i].next_ticket + 1
            },
        forall|i: int|
            0 <= i < tickets.len() - 1 ==> #[trigger] after[i].next_ticket <= before[i
                + 1].next_ticket,
    ensures
        forall|i: int, j: int|
            0 <= i < j < tickets.len() ==> #[trigger] tickets[i] < #[trigger] tickets[j],
        forall|i: int, j: int|
            0 <= i < j < tickets.len() ==> #[trigger] tickets[i] != #[trigger] tickets[j],
{
    assert forall|i: int, j: int| 0 <= i < j < tickets.len() implies #[trigger] tickets[i]
        < #[trigger] tickets[j] by {
        lemma_tickets_grow(before, after, tickets, i, j);
    }
}

proof fn lemma_tickets_grow(
    before: Seq<BridgeModel>,
    after: Seq<BridgeModel>,
    tickets: Seq<i32>,
    i: int,
    j: int,
)
    requires
        before.len() == tickets.len(),
        after.len() == tickets.len(),
        forall|i: int|
            0 <= i < tickets.len() ==> {
                &&& #[trigger] tickets[i] == before[i].next_ticket
                &&& after[i].next_ticket == before[i].next_ticket + 1
            },
        forall|i: int|
            0 <= i < tickets.len() - 1 ==> #[trigger] after[i].next_ticket <= before[i
                + 1].next_ticket,
        0 <= i < j < tickets.len(),
    ensures
        tickets[i] + (j - i) <= tickets[j],
    decreases j - i,
{
    if j > i + 1 {
        lemma_tickets_grow(before, after, tickets, i, j - 1);
    }
    assert(tickets[j - 1] == before[j - 1].next_ticket);
    assert(after[j - 1].next_ticket <= before[j].next_ticket);
    assert(tickets[j] == before[j].next_ticket);
}

/// Putting buffers, getting buffers and recording a write-back leave the
/// ticket counter where it was: only issuing a ticket moves it.
pub proof fn lemma_counter_kept(m: BridgeModel, t: i32, b: Seq<u8>, instance: Seq<char>, w: WriteBack)
    ensures
        m.put(t, b).next_ticket == m.next_ticket,
        m.after_get(t).next_ticket == m.next_ticket,
        commit(m, instance, w).next_ticket == m.next_ticket,
{
}

/// The model after putting `bs` into the queue of `t`, in order.
pub open spec fn put_all(m: BridgeModel, t: i32, bs: Seq<Seq<u8>>) -> BridgeModel
    decreases bs.len(),
{
    if bs.len() == 0 {
        m
    } else {
        put_all(m, t, bs.drop_last()).put(t, bs.last())
    }
}

/// What `n` successive gets on `t` return, starting from `m`.
pub open spec fn drain(m: BridgeModel, t: i32, n: nat) -> Seq<Result<Seq<u8>, BridgeError>>
    decreases n,
{
    if n == 0 {
        Seq::empty()
    } else {
        seq![m.get_result(t)] + drain(m.after_get(t), t, (n - 1) as nat)
    }
}

proof fn lemma_put_all_queue(m: BridgeModel, t: i32, bs: Seq<Seq<u8>>)
    requires
        m.queues.contains_key(t),
    ensures
        put_all(m, t, bs).queues.contains_key(t),
        put_all(m, t, bs).queues[t] == m.queues[t] + bs,
    decreases bs.len(),
{
    if bs.len() > 0 {
        lemma_put_all_queue(m, t, bs.drop_last());
        assert(m.queues[t] + bs =~= (m.queues[t] + bs.drop_last()).push(bs.last()));
    }
}

proof fn lemma_drain(m: BridgeModel, t: i32, n: nat)
    requires
        m.queues.contains_key(t),
        n <= m.queues[t].len(),
    ensures
        drain(m, t, n) == Seq::new(n, |i: int| Ok::<Seq<u8>, BridgeError>(m.queues[t][i])),
    decreases n,
{
    if n > 0 {
        let m2 = m.after_get(t);
        lemma_drain(m2, t, (n - 1) as nat);
        assert(m2.queues[t] == m.queues[t].drop_first());
        assert(drain(m, t, n) =~= Seq::new(
            n,
            |i: int| Ok::<Seq<u8>, BridgeError>(m.queues[t][i]),
        ));
    }
}

/// Buffers put into an empty queue come out of it in the order they went
/// in, and the get after the last one fails with `EmptyQueue`.
pub proof fn lemma_fifo(m: BridgeModel, t: i32, bs: Seq<Seq<u8>>)
    requires
        m.queues.contains_key(t),
        m.queues[t].len() == 0,
    ensures
        drain(put_all(m, t, bs), t, bs.len()) == bs.map_values(
            |b: Seq<u8>| Ok::<Seq<u8>, BridgeError>(b),
        ),
        drain(put_all(m, t, bs), t, bs.len() + 1).last() == Err::<Seq<u8>, BridgeError>(
            BridgeError::EmptyQueue,
        ),
{
    let full = put_all(m, t, bs);
    lemma_put_all_queue(m, t, bs);
    assert(full.queues[t] =~= bs);
    lemma_drain(full, t, bs.len());
    assert(drain(full, t, bs.len()) =~= bs.map_values(
        |b: Seq<u8>| Ok::<Seq<u8>, BridgeError>(b),
    ));
    lemma_drain_then_empty(full, t, bs.len());
}

proof fn lemma_drain_then_empty(m: BridgeModel, t: i32, n: nat)
    requires
        m.queues.contains_key(t),
        n == m.queues[t].len(),
    ensures
        drain(m, t, n + 1).len() == n + 1,
        drain(m, t, n + 1).last() == Err::<Seq<u8>, BridgeError>(BridgeError::EmptyQueue),
    decreases n,
{
    if n > 0 {
        let m2 = m.after_get(t);
        lemma_drain_then_empty(m2, t, (n - 1) as nat);
        assert(drain(m, t, n + 1) == seq![m.get_result(t)] + drain(m2, t, n));
    } else {
        assert(drain(m, t, 1) == seq![m.get_result(t)] + drain(m.after_get(t), t, 0));
    }
}

/// A get on a ticket with no pending buffer fails with `EmptyQueue` and
/// leaves the state as it was.
pub proof fn lemma_empty_queue_fails(m: BridgeModel, t: i32)
    requires
        m.queues.contains_key(t),
        m.queues[t].len() == 0,
    ensures
        m.get_result(t) == Err::<Seq<u8>, BridgeError>(BridgeError::EmptyQueue),
        m.after_get(t) == m,
{
}

/// Queues of different tickets do not see each other: a put or a get on
/// `t1` changes neither the queue of `t2` nor what a get on `t2` returns.
pub proof fn lemma_queue_isolation(m: BridgeModel, t1: i32, t2: i32, b: Seq<u8>)
    requires
        t1 != t2,
    ensures
        m.put(t1, b).queues.contains_key(t2) == m.queues.contains_key(t2),
        m.put(t1, b).queues[t2] == m.queues[t2],
        m.put(t1, b).get_result(t2) == m.get_result(t2),
        m.after_get(t1).queues.contains_key(t2) == m.queues.contains_key(t2),
        m.after_get(t1).queues[t2] == m.queues[t2],
        m.after_get(t1).get_result(t2) == m.get_result(t2),
{
}

/// Growth is monotone: a write-back to `instance` never lowers its cached
/// page count nor moves its base, and memory grows exactly when the payload
/// needs more pages than the cache holds. A first write-back creates the
/// entry with the pages the payload needs.
pub proof fn lemma_growth_monotone(m: BridgeModel, instance: Seq<char>, mem_pages: nat, len: nat)
    requires
        plan_spec(m.cache_of(instance), mem_pages, len) is Ok,
    ensures
        ({
            let w = plan_spec(m.cache_of(instance), mem_pages, len)->Ok_0;
            let after = commit(m, instance, w).cache_of(instance);
            &&& after is Some
            &&& match m.cache_of(instance) {
                Some(c) => {
                    &&& after->Some_0.offset == c.offset
                    &&& after->Some_0.pages >= c.pages
                    &&& (w.grow_pages > 0 <==> pages_for(len) > c.pages)
                    &&& w.grow_pages > 0 ==> c.pages + w.grow_pages == after->Some_0.pages
                },
                None => {
                    &&& w.grow_pages == pages_for(len)
                    &&& after->Some_0 == (GrowCache {
                        offset: mem_pages as u32,
                        pages: pages_for(len) as u32,
                    })
                },
            }
        }),
{
}

/// Number of growths over successive write-backs of payloads of lengths
/// `lens` to `instance`, whose memory starts at `mem_pages` pages; it stops
/// at the first failing write-back.
pub open spec fn grow_calls(m: BridgeModel, instance: Seq<char>, mem_pages: nat, lens: Seq<nat>) -> nat
    decreases lens.len(),
{
    if lens.len() == 0 {
        0
    } else {
        match plan_spec(m.cache_of(instance), mem_pages, lens[0]) {
            Ok(w) => (if w.grow_pages > 0 {
                1nat
            } else {
                0nat
            }) + grow_calls(
                commit(m, instance, w),
                instance,
                (mem_pages + w.grow_pages) as nat,
                lens.drop_first(),
            ),
            Err(_) => 0,
        }
    }
}

proof fn lemma_pages_for_monotone(a: nat, b: nat)
    requires
        a <= b,
    ensures
        pages_for(a) <= pages_for(b),
{
    if a > 0 {
        assert((a + 65535) / 65536 <= (b + 65535) / 65536) by (nonlinear_arith)
            requires
                a <= b,
        ;
    }
    assert(b > 0 ==> (b + 65535) / 65536 >= 1) by (nonlinear_arith);
}

proof fn lemma_no_more_growth(m: BridgeModel, instance: Seq<char>, mem_pages: nat, lens: Seq<nat>)
    requires
        m.cache_of(instance) is Some,
        m.cache_of(instance)->Some_0.offset + m.cache_of(instance)->Some_0.pages <= mem_pages,
        forall|i: int| 0 <= i < lens.len() ==> pages_for(#[trigger] lens[i]) <= m.cache_of(instance)->Some_0.pages,
    ensures
        grow_calls(m, instance, mem_pages, lens) == 0,
    decreases lens.len(),
{
    if lens.len() > 0 {
        let w = plan_spec(m.cache_of(instance), mem_pages, lens[0])->Ok_0;
        assert(pages_for(lens[0]) <= m.cache_of(instance)->Some_0.pages);
        assert(w.grow_pages == 0);
        lemma_no_more_growth(m, instance, mem_pages, lens.drop_first());
    }
}

/// Payloads that never get larger than the first cost one growth, at the
/// first write-back to an instance with no cache entry, and none after it,
/// provided the first growth fits in the largest memory.
pub proof fn lemma_cache_reuse(m: BridgeModel, instance: Seq<char>, mem_pages: nat, lens: Seq<nat>)
    requires
        m.cache_of(instance) is None,
        lens.len() >= 1,
        forall|i: int, j: int| 0 <= i < j < lens.len() ==> #[trigger] lens[j] <= #[trigger] lens[i],
        mem_pages + pages_for(lens[0]) <= MAX_PAGES,
    ensures
        grow_calls(m, instance, mem_pages, lens) == 1,
{
    let w = plan_spec(m.cache_of(instance), mem_pages, lens[0])->Ok_0;
    let m2 = commit(m, instance, w);
    assert(pages_for(lens[0]) >= 1);
    assert(m2.cache_of(instance)->Some_0.pages == pages_for(lens[0]));
    let rest = lens.drop_first();
    assert forall|i: int| 0 <= i < rest.len() implies pages_for(#[trigger] rest[i])
        <= m2.cache_of(instance)->Some_0.pages by {
        assert(rest[i] == lens[i + 1]);
        assert(lens[i + 1] <= lens[0]);
        lemma_pages_for_monotone(rest[i], lens[0]);
    }
    lemma_no_more_growth(m2, instance, (mem_pages + w.grow_pages) as nat, rest);
}

/// Round trip: a payload `b` written at the placement chosen for it, into a
/// memory of `mem_pages` pages grown as planned, reads back unchanged from
/// the reported offset and length, which lie inside the grown memory.
pub proof fn lemma_round_trip(mem: Seq<u8>, mem_pages: nat, cached: Option<GrowCache>, b: Seq<u8>)
    requires
        mem.len() == mem_pages * PAGE_SIZE,
        mem_pages <= MAX_PAGES,
        b.len() <= u32::MAX,
        plan_spec(cached, mem_pages, b.len()) is Ok,
    ensures
        ({
            let w = plan_spec(cached, mem_pages, b.len())->Ok_0;
            let grown = mem + zeros((w.grow_pages * PAGE_SIZE) as nat);
            &&& w.len == b.len()
            &&& w.offset + w.len <= grown.len()
            &&& write_spec(grown, w.offset as int, b).subrange(w.offset as int, w.offset + w.len)
                == b
        }),
{
    let w = plan_spec(cached, mem_pages, b.len())->Ok_0;
    lemma_placement_in_bounds(cached, mem_pages, b.len());
    let grown = mem + zeros((w.grow_pages * PAGE_SIZE) as nat);
    assert(grown.len() == (mem_pages + w.grow_pages) * PAGE_SIZE) by (nonlinear_arith)
        requires
            grown.len() == mem.len() + w.grow_pages * PAGE_SIZE,
            mem.len() == mem_pages * PAGE_SIZE,
    ;
    assert(write_spec(grown, w.offset as int, b).subrange(w.offset as int, w.offset + w.len) =~= b);
}

} // verus!
