//! Bounded connection accounting: idle connections and leased slots of each origin.

use vstd::prelude::*;

use crate::stats::{count, counted, ClientStats};
use crate::time::{Duration, Instant};
use crate::url::{OriginKey, OriginView};

verus! {

/// A connection that is, or was, pooled.
#[derive(Debug)]
pub struct PooledConnection<C> {
    pub client: C,
    pub created: Instant,
    pub idle_since: Instant,
}

/// The connections of one origin: how many there are, and which of them are idle.
#[derive(Debug)]
struct OriginSlot<C> {
    key: OriginKey,
    idle: Vec<PooledConnection<C>>,
    open: usize,
}

/// The mathematical side of the connections of one origin.
pub struct SlotView<C> {
    pub key: OriginView,
    pub idle: Seq<PooledConnection<C>>,
    pub open: nat,
}

impl<C> View for OriginSlot<C> {
    type V = SlotView<C>;

    closed spec fn view(&self) -> SlotView<C> {
        SlotView { key: self.key@, idle: self.idle@, open: self.open as nat }
    }
}

/// The connections of a client.
#[derive(Debug)]
pub struct PoolState<C> {
    slots: Vec<OriginSlot<C>>,
    total: usize,
}

/// The mathematical side of a [`PoolState`].
pub struct PoolView<C> {
    pub slots: Seq<SlotView<C>>,
    pub total: nat,
}

impl<C> View for PoolState<C> {
    type V = PoolView<C>;

    closed spec fn view(&self) -> PoolView<C> {
        PoolView {
            slots: self.slots@.map_values(|slot: OriginSlot<C>| slot@),
            total: self.total as nat,
        }
    }
}

/// The position of the origin, or the number of origins.
pub open spec fn find_slot<C>(slots: Seq<SlotView<C>>, key: OriginView) -> int
    decreases slots.len(),
{
    if slots.len() == 0 || slots[0].key == key {
        0
    } else {
        1 + find_slot(slots.drop_first(), key)
    }
}

/// The number of connections of all origins.
pub open spec fn sum_open<C>(slots: Seq<SlotView<C>>) -> nat
    decreases slots.len(),
{
    if slots.len() == 0 {
        0
    } else {
        sum_open(slots.drop_last()) + slots.last().open
    }
}

/// Every origin stands once, has at least one connection and no more idle ones than connections.
pub open spec fn slots_wf<C>(slots: Seq<SlotView<C>>) -> bool {
    &&& forall|i: int, j: int|
        0 <= i < j < slots.len() ==> (#[trigger] slots[i]).key != (#[trigger] slots[j]).key
    &&& forall|i: int|
        0 <= i < slots.len() ==> (#[trigger] slots[i]).open >= 1 && slots[i].open
            >= slots[i].idle.len()
}

impl<C> PoolView<C> {
    /// The accounting is consistent.
    pub open spec fn wf(self) -> bool {
        slots_wf(self.slots) && self.total == sum_open(self.slots)
    }

    /// The number of connections of an origin.
    pub open spec fn open_of(self, key: OriginView) -> nat {
        let at = find_slot(self.slots, key);
        if at < self.slots.len() {
            self.slots[at].open
        } else {
            0
        }
    }

    /// The idle connections of an origin.
    pub open spec fn idle_of(self, key: OriginView) -> Seq<PooledConnection<C>> {
        let at = find_slot(self.slots, key);
        if at < self.slots.len() {
            self.slots[at].idle
        } else {
            Seq::empty()
        }
    }

    /// The number of connections of an origin that are leased.
    pub open spec fn leased(self, key: OriginView) -> int {
        self.open_of(key) - self.idle_of(key).len()
    }

    /// Every origin and the client as a whole keep to their limits.
    pub open spec fn bounded(self, max_total: nat, max_per_origin: nat) -> bool {
        &&& self.total <= max_total
        &&& forall|key: OriginView| #[trigger] self.open_of(key) <= max_per_origin
    }
}

/// A connection may stay: it was neither idle nor open for too long.
pub open spec fn fresh<C>(
    connection: PooledConnection<C>,
    now: Instant,
    idle_timeout: Duration,
    lifetime: Duration,
) -> bool {
    now.since(connection.idle_since).nanos < idle_timeout.nanos && now.since(
        connection.created,
    ).nanos < lifetime.nanos
}

/// The idle connections that may stay, in order.
pub open spec fn kept_idle<C>(
    idle: Seq<PooledConnection<C>>,
    now: Instant,
    idle_timeout: Duration,
    lifetime: Duration,
) -> Seq<PooledConnection<C>>
    decreases idle.len(),
{
    if idle.len() == 0 {
        Seq::empty()
    } else {
        let before = kept_idle(idle.drop_last(), now, idle_timeout, lifetime);
        if fresh(idle.last(), now, idle_timeout, lifetime) {
            before.push(idle.last())
        } else {
            before
        }
    }
}

/// An origin after its expired connections were dropped.
pub open spec fn purged_slot<C>(
    slot: SlotView<C>,
    now: Instant,
    idle_timeout: Duration,
    lifetime: Duration,
) -> SlotView<C> {
    let idle = kept_idle(slot.idle, now, idle_timeout, lifetime);
    SlotView { key: slot.key, idle, open: (slot.open - (slot.idle.len() - idle.len())) as nat }
}

/// The origins after expired connections were dropped; an origin without connections leaves.
pub open spec fn purged_slots<C>(
    slots: Seq<SlotView<C>>,
    now: Instant,
    idle_timeout: Duration,
    lifetime: Duration,
) -> Seq<SlotView<C>>
    decreases slots.len(),
{
    if slots.len() == 0 {
        Seq::empty()
    } else {
        let before = purged_slots(slots.drop_last(), now, idle_timeout, lifetime);
        let slot = purged_slot(slots.last(), now, idle_timeout, lifetime);
        if slot.open == 0 {
            before
        } else {
            before.push(slot)
        }
    }
}

/// The pool after expired connections were dropped.
pub open spec fn purged<C>(
    pool: PoolView<C>,
    now: Instant,
    idle_timeout: Duration,
    lifetime: Duration,
) -> PoolView<C> {
    let slots = purged_slots(pool.slots, now, idle_timeout, lifetime);
    PoolView { slots, total: sum_open(slots) }
}

/// The pool with one more leased connection of an origin.
pub open spec fn reserved<C>(pool: PoolView<C>, key: OriginView) -> PoolView<C> {
    let at = find_slot(pool.slots, key);
    let slots = if at < pool.slots.len() {
        let slot = pool.slots[at];
        pool.slots.update(at, SlotView { open: slot.open + 1, ..slot })
    } else {
        pool.slots.push(SlotView { key, idle: Seq::empty(), open: 1 })
    };
    PoolView { slots, total: pool.total + 1 }
}

/// The pool after the most recently returned idle connection of an origin was leased.
pub open spec fn idle_taken<C>(pool: PoolView<C>, key: OriginView) -> PoolView<C> {
    let at = find_slot(pool.slots, key);
    let slot = pool.slots[at];
    PoolView {
        slots: pool.slots.update(at, SlotView { idle: slot.idle.drop_last(), ..slot }),
        total: pool.total,
    }
}

/// The pool after a leased connection of an origin became idle.
pub open spec fn idle_returned<C>(
    pool: PoolView<C>,
    key: OriginView,
    connection: PooledConnection<C>,
) -> PoolView<C> {
    let at = find_slot(pool.slots, key);
    let slot = pool.slots[at];
    PoolView {
        slots: pool.slots.update(at, SlotView { idle: slot.idle.push(connection), ..slot }),
        total: pool.total,
    }
}

/// The pool after a leased connection of an origin was given up.
pub open spec fn released<C>(pool: PoolView<C>, key: OriginView) -> PoolView<C> {
    let at = find_slot(pool.slots, key);
    let slot = pool.slots[at];
    let slots = if slot.open <= 1 {
        pool.slots.remove(at)
    } else {
        pool.slots.update(at, SlotView { open: (slot.open - 1) as nat, ..slot })
    };
    PoolView { slots, total: (pool.total - 1) as nat }
}

proof fn lemma_find<C>(slots: Seq<SlotView<C>>, key: OriginView)
    ensures
        0 <= find_slot(slots, key) <= slots.len(),
        find_slot(slots, key) < slots.len() ==> slots[find_slot(slots, key)].key == key,
        forall|i: int| 0 <= i < find_slot(slots, key) ==> (#[trigger] slots[i]).key != key,
    decreases slots.len(),
{
    if slots.len() > 0 && slots[0].key != key {
        let rest = slots.drop_first();
        lemma_find(rest, key);
        assert forall|i: int| 0 <= i < find_slot(slots, key) implies (#[trigger] slots[i]).key
            != key by {
            if i > 0 {
                assert(rest[i - 1] == slots[i]);
            }
        }
    }
}

proof fn lemma_found<C>(slots: Seq<SlotView<C>>, key: OriginView, at: int)
    requires
        slots_wf(slots),
        0 <= at < slots.len(),
        slots[at].key == key,
    ensures
        find_slot(slots, key) == at,
{
    lemma_find(slots, key);
}

proof fn lemma_not_found<C>(slots: Seq<SlotView<C>>, key: OriginView)
    requires
        forall|i: int| 0 <= i < slots.len() ==> (#[trigger] slots[i]).key != key,
    ensures
        find_slot(slots, key) == slots.len(),
{
    lemma_find(slots, key);
}

proof fn lemma_sum_update<C>(slots: Seq<SlotView<C>>, at: int, slot: SlotView<C>)
    requires
        0 <= at < slots.len(),
    ensures
        sum_open(slots.update(at, slot)) == sum_open(slots) - slots[at].open + slot.open,
    decreases slots.len(),
{
    let after = slots.update(at, slot);
    if at == slots.len() - 1 {
        assert(after.drop_last() =~= slots.drop_last());
    } else {
        assert(after.drop_last() =~= slots.drop_last().update(at, slot));
        lemma_sum_update(slots.drop_last(), at, slot);
    }
}

proof fn lemma_sum_remove<C>(slots: Seq<SlotView<C>>, at: int)
    requires
        0 <= at < slots.len(),
    ensures
        sum_open(slots.remove(at)) == sum_open(slots) - slots[at].open,
    decreases slots.len(),
{
    let after = slots.remove(at);
    if at == slots.len() - 1 {
        assert(after =~= slots.drop_last());
    } else {
        assert(after.drop_last() =~= slots.drop_last().remove(at));
        assert(after.last() == slots.last());
        lemma_sum_remove(slots.drop_last(), at);
    }
}

proof fn lemma_sum_push<C>(slots: Seq<SlotView<C>>, slot: SlotView<C>)
    ensures
        sum_open(slots.push(slot)) == sum_open(slots) + slot.open,
{
    assert(slots.push(slot).drop_last() =~= slots);
}

proof fn lemma_sum_bounds<C>(slots: Seq<SlotView<C>>, at: int)
    requires
        0 <= at < slots.len(),
    ensures
        slots[at].open <= sum_open(slots),
    decreases slots.len(),
{
    if at < slots.len() - 1 {
        lemma_sum_bounds(slots.drop_last(), at);
    }
}

/// No origin has more connections than the client.
pub proof fn lemma_origin_within_total<C>(pool: PoolView<C>, key: OriginView)
    requires
        pool.wf(),
    ensures
        pool.open_of(key) <= pool.total,
        0 <= pool.leased(key) <= pool.open_of(key),
{
    lemma_find(pool.slots, key);
    let at = find_slot(pool.slots, key);
    if at < pool.slots.len() {
        lemma_sum_bounds(pool.slots, at);
    }
}

/// Reserving a slot adds one leased connection of the origin and changes nothing else.
pub proof fn lemma_reserved<C>(pool: PoolView<C>, key: OriginView, other: OriginView)
    requires
        pool.wf(),
    ensures
        reserved(pool, key).wf(),
        reserved(pool, key).total == pool.total + 1,
        reserved(pool, key).open_of(key) == pool.open_of(key) + 1,
        reserved(pool, key).idle_of(key) == pool.idle_of(key),
        reserved(pool, key).leased(key) == pool.leased(key) + 1,
        other != key ==> reserved(pool, key).open_of(other) == pool.open_of(other),
        other != key ==> reserved(pool, key).idle_of(other) == pool.idle_of(other),
{
    let at = find_slot(pool.slots, key);
    let after = reserved(pool, key).slots;
    lemma_find(pool.slots, key);
    lemma_find(pool.slots, other);
    if at < pool.slots.len() {
        lemma_sum_update(pool.slots, at, after[at]);
    } else {
        lemma_sum_push(pool.slots, after[at]);
    }
    assert(slots_wf(after)) by {
        assert forall|i: int, j: int| 0 <= i < j < after.len() implies (#[trigger] after[i]).key
            != (#[trigger] after[j]).key by {
            if i < pool.slots.len() {
                assert(after[i].key == pool.slots[i].key);
            }
            if j < pool.slots.len() {
                assert(after[j].key == pool.slots[j].key);
            }
        }
    }
    lemma_found(after, key, at);
    if other != key {
        lemma_elsewhere(pool.slots, after, other);
    }
}

/// A change that leaves the slot of an origin where it is leaves the origin as it is.
proof fn lemma_elsewhere<C>(before: Seq<SlotView<C>>, after: Seq<SlotView<C>>, other: OriginView)
    requires
        slots_wf(before),
        slots_wf(after),
        forall|i: int|
            0 <= i < before.len() && (#[trigger] before[i]).key == other ==> i < after.len()
                && after[i] == before[i],
        forall|i: int|
            0 <= i < after.len() && (#[trigger] after[i]).key == other ==> i < before.len()
                && before[i] == after[i],
    ensures
        find_slot(before, other) < before.len() <==> find_slot(after, other) < after.len(),
        find_slot(before, other) < before.len() ==> after[find_slot(after, other)]
            == before[find_slot(before, other)],
{
    lemma_find(before, other);
    lemma_find(after, other);
    let at = find_slot(before, other);
    if at < before.len() {
        assert(before[at].key == other);
        lemma_found(after, other, at);
    }
    let there = find_slot(after, other);
    if there < after.len() {
        assert(after[there].key == other);
        lemma_found(before, other, there);
    }
}

/// Leasing an idle connection keeps the number of connections.
pub proof fn lemma_idle_taken<C>(pool: PoolView<C>, key: OriginView, other: OriginView)
    requires
        pool.wf(),
        pool.idle_of(key).len() > 0,
    ensures
        idle_taken(pool, key).wf(),
        idle_taken(pool, key).total == pool.total,
        idle_taken(pool, key).open_of(key) == pool.open_of(key),
        idle_taken(pool, key).idle_of(key) == pool.idle_of(key).drop_last(),
        idle_taken(pool, key).leased(key) == pool.leased(key) + 1,
        other != key ==> idle_taken(pool, key).open_of(other) == pool.open_of(other),
        other != key ==> idle_taken(pool, key).idle_of(other) == pool.idle_of(other),
{
    let at = find_slot(pool.slots, key);
    let after = idle_taken(pool, key).slots;
    lemma_find(pool.slots, key);
    lemma_sum_update(pool.slots, at, after[at]);
    assert(slots_wf(after)) by {
        assert forall|i: int, j: int| 0 <= i < j < after.len() implies (#[trigger] after[i]).key
            != (#[trigger] after[j]).key by {
            assert(after[i].key == pool.slots[i].key);
            assert(after[j].key == pool.slots[j].key);
        }
    }
    lemma_found(after, key, at);
    if other != key {
        lemma_elsewhere(pool.slots, after, other);
    }
}

/// A returned connection is idle and no longer leased; the number of connections stays.
pub proof fn lemma_idle_returned<C>(
    pool: PoolView<C>,
    key: OriginView,
    connection: PooledConnection<C>,
    other: OriginView,
)
    requires
        pool.wf(),
        pool.leased(key) > 0,
    ensures
        idle_returned(pool, key, connection).wf(),
        idle_returned(pool, key, connection).total == pool.total,
        idle_returned(pool, key, connection).open_of(key) == pool.open_of(key),
        idle_returned(pool, key, connection).idle_of(key) == pool.idle_of(key).push(connection),
        idle_returned(pool, key, connection).leased(key) == pool.leased(key) - 1,
        other != key ==> idle_returned(pool, key, connection).open_of(other) == pool.open_of(other),
        other != key ==> idle_returned(pool, key, connection).idle_of(other) == pool.idle_of(other),
{
    let at = find_slot(pool.slots, key);
    let after = idle_returned(pool, key, connection).slots;
    lemma_find(pool.slots, key);
    lemma_sum_update(pool.slots, at, after[at]);
    assert(slots_wf(after)) by {
        assert forall|i: int, j: int| 0 <= i < j < after.len() implies (#[trigger] after[i]).key
            != (#[trigger] after[j]).key by {
            assert(after[i].key == pool.slots[i].key);
            assert(after[j].key == pool.slots[j].key);
        }
    }
    lemma_found(after, key, at);
    if other != key {
        lemma_elsewhere(pool.slots, after, other);
    }
}

/// Giving a leased connection up takes it out of the accounting and changes nothing else.
pub proof fn lemma_released<C>(pool: PoolView<C>, key: OriginView, other: OriginView)
    requires
        pool.wf(),
        pool.leased(key) > 0,
    ensures
        released(pool, key).wf(),
        released(pool, key).total == pool.total - 1,
        released(pool, key).open_of(key) == pool.open_of(key) - 1,
        released(pool, key).idle_of(key) == pool.idle_of(key),
        released(pool, key).leased(key) == pool.leased(key) - 1,
        other != key ==> released(pool, key).open_of(other) == pool.open_of(other),
        other != key ==> released(pool, key).idle_of(other) == pool.idle_of(other),
{
    let at = find_slot(pool.slots, key);
    let slots = pool.slots;
    let after = released(pool, key).slots;
    lemma_find(slots, key);
    lemma_find(slots, other);
    lemma_sum_bounds(slots, at);
    if slots[at].open <= 1 {
        lemma_sum_remove(slots, at);
        assert forall|i: int| 0 <= i < after.len() implies #[trigger] after[i] == (if i < at {
            slots[i]
        } else {
            slots[i + 1]
        }) by {}
        assert(slots_wf(after)) by {
            assert forall|i: int, j: int| 0 <= i < j < after.len() implies (#[trigger] after[i]).key
                != (#[trigger] after[j]).key by {
                let si = if i < at {
                    i
                } else {
                    i + 1
                };
                let sj = if j < at {
                    j
                } else {
                    j + 1
                };
                assert(slots[si].key != slots[sj].key);
            }
        }
        assert forall|i: int| 0 <= i < after.len() implies (#[trigger] after[i]).key != key by {
            if i < at {
                assert(slots[i].key != slots[at].key);
            } else {
                assert(slots[at].key != slots[i + 1].key);
            }
        }
        lemma_not_found(after, key);
        assert(released(pool, key).idle_of(key) =~= pool.idle_of(key));
        if other != key {
            let there = find_slot(slots, other);
            if there < slots.len() {
                let moved = if there < at {
                    there
                } else {
                    there - 1
                };
                assert(after[moved] == slots[there]);
                lemma_found(after, other, moved);
            } else {
                assert forall|i: int| 0 <= i < after.len() implies (#[trigger] after[i]).key
                    != other by {
                    if i < at {
                        assert(slots[i].key != other);
                    } else {
                        assert(slots[i + 1].key != other);
                    }
                }
                lemma_not_found(after, other);
            }
        }
    } else {
        lemma_sum_update(slots, at, after[at]);
        assert(slots_wf(after)) by {
            assert forall|i: int, j: int| 0 <= i < j < after.len() implies (#[trigger] after[i]).key
                != (#[trigger] after[j]).key by {
                assert(after[i].key == slots[i].key);
                assert(after[j].key == slots[j].key);
            }
        }
        lemma_found(after, key, at);
        if other != key {
            lemma_elsewhere(slots, after, other);
        }
    }
}

proof fn lemma_kept_idle_len<C>(
    idle: Seq<PooledConnection<C>>,
    now: Instant,
    idle_timeout: Duration,
    lifetime: Duration,
)
    ensures
        kept_idle(idle, now, idle_timeout, lifetime).len() <= idle.len(),
    decreases idle.len(),
{
    if idle.len() > 0 {
        lemma_kept_idle_len(idle.drop_last(), now, idle_timeout, lifetime);
    }
}

/// What purging does to the origins: each keeps its fresh idle connections and all leased ones.
proof fn lemma_purged_slots<C>(
    slots: Seq<SlotView<C>>,
    now: Instant,
    idle_timeout: Duration,
    lifetime: Duration,
)
    requires
        slots_wf(slots),
    ensures
        slots_wf(purged_slots(slots, now, idle_timeout, lifetime)),
        sum_open(purged_slots(slots, now, idle_timeout, lifetime)) <= sum_open(slots),
        forall|i: int|
            0 <= i < purged_slots(slots, now, idle_timeout, lifetime).len() ==> exists|j: int|
                0 <= j < slots.len() && #[trigger] purged_slots(
                    slots,
                    now,
                    idle_timeout,
                    lifetime,
                )[i] == purged_slot(#[trigger] slots[j], now, idle_timeout, lifetime),
        forall|j: int|
            0 <= j < slots.len() && purged_slot(
                #[trigger] slots[j],
                now,
                idle_timeout,
                lifetime,
            ).open > 0 ==> purged_slots(slots, now, idle_timeout, lifetime).contains(
                purged_slot(slots[j], now, idle_timeout, lifetime),
            ),
    decreases slots.len(),
{
    if slots.len() > 0 {
        let before = slots.drop_last();
        let last = slots.last();
        assert(slots_wf(before)) by {
            assert forall|i: int, j: int|
                0 <= i < j < before.len() implies (#[trigger] before[i]).key
                != (#[trigger] before[j]).key by {
                assert(before[i] == slots[i] && before[j] == slots[j]);
            }
            assert forall|i: int| 0 <= i < before.len() implies (#[trigger] before[i]).open >= 1
                && before[i].open >= before[i].idle.len() by {
                assert(before[i] == slots[i]);
            }
        }
        lemma_purged_slots(before, now, idle_timeout, lifetime);
        lemma_kept_idle_len(last.idle, now, idle_timeout, lifetime);
        let kept = purged_slots(before, now, idle_timeout, lifetime);
        let slot = purged_slot(last, now, idle_timeout, lifetime);
        let after = purged_slots(slots, now, idle_timeout, lifetime);
        assert(slots[slots.len() - 1] == last);
        assert(last.open >= last.idle.len());
        if slot.open > 0 {
            lemma_sum_push(kept, slot);
            assert forall|i: int| 0 <= i < kept.len() implies (#[trigger] kept[i]).key
                != slot.key by {
                let j = choose|j: int|
                    0 <= j < before.len() && kept[i] == purged_slot(
                        #[trigger] before[j],
                        now,
                        idle_timeout,
                        lifetime,
                    );
                assert(before[j] == slots[j]);
                assert(slots[j].key != slots[slots.len() - 1].key);
            }
            assert(after[after.len() - 1] == slot);
        }
        assert forall|i: int| 0 <= i < after.len() implies exists|j: int|
            0 <= j < slots.len() && #[trigger] after[i] == purged_slot(
                #[trigger] slots[j],
                now,
                idle_timeout,
                lifetime,
            ) by {
            if i < kept.len() {
                assert(after[i] == kept[i]);
                let j = choose|j: int|
                    0 <= j < before.len() && kept[i] == purged_slot(
                        #[trigger] before[j],
                        now,
                        idle_timeout,
                        lifetime,
                    );
                assert(before[j] == slots[j]);
            } else {
                assert(after[i] == purged_slot(
                    slots[slots.len() - 1],
                    now,
                    idle_timeout,
                    lifetime,
                ));
            }
        }
        assert forall|j: int|
            0 <= j < slots.len() && purged_slot(
                #[trigger] slots[j],
                now,
                idle_timeout,
                lifetime,
            ).open > 0 implies after.contains(
            purged_slot(slots[j], now, idle_timeout, lifetime),
        ) by {
            if j < before.len() {
                assert(before[j] == slots[j]);
                let image = purged_slot(before[j], now, idle_timeout, lifetime);
                assert(kept.contains(image));
                let k = choose|k: int| 0 <= k < kept.len() && kept[k] == image;
                assert(after[k] == image);
            } else {
                assert(after[after.len() - 1] == slot);
            }
        }
    }
}

/// Purging drops exactly the idle connections that stayed too long: every origin keeps its fresh
/// idle connections in order and all its leased connections.
pub proof fn lemma_purged<C>(
    pool: PoolView<C>,
    now: Instant,
    idle_timeout: Duration,
    lifetime: Duration,
    key: OriginView,
)
    requires
        pool.wf(),
    ensures
        purged(pool, now, idle_timeout, lifetime).wf(),
        purged(pool, now, idle_timeout, lifetime).total <= pool.total,
        purged(pool, now, idle_timeout, lifetime).idle_of(key) == kept_idle(
            pool.idle_of(key),
            now,
            idle_timeout,
            lifetime,
        ),
        purged(pool, now, idle_timeout, lifetime).leased(key) == pool.leased(key),
        purged(pool, now, idle_timeout, lifetime).open_of(key) <= pool.open_of(key),
{
    let slots = pool.slots;
    let after = purged_slots(slots, now, idle_timeout, lifetime);
    lemma_purged_slots(slots, now, idle_timeout, lifetime);
    lemma_find(slots, key);
    lemma_find(after, key);
    let at = find_slot(slots, key);
    if at < slots.len() {
        let image = purged_slot(slots[at], now, idle_timeout, lifetime);
        lemma_kept_idle_len(slots[at].idle, now, idle_timeout, lifetime);
        if image.open > 0 {
            assert(after.contains(image));
            let k = choose|k: int| 0 <= k < after.len() && after[k] == image;
            lemma_found(after, key, k);
        } else {
            assert forall|i: int| 0 <= i < after.len() implies (#[trigger] after[i]).key != key by {
                let j = choose|j: int|
                    0 <= j < slots.len() && after[i] == purged_slot(
                        #[trigger] slots[j],
                        now,
                        idle_timeout,
                        lifetime,
                    );
                if slots[j].key == key {
                    lemma_found(slots, key, j);
                }
            }
            lemma_not_found(after, key);
            assert(image.idle.len() == 0);
            assert(kept_idle(slots[at].idle, now, idle_timeout, lifetime) =~= Seq::<
                PooledConnection<C>,
            >::empty());
        }
    } else {
        assert forall|i: int| 0 <= i < after.len() implies (#[trigger] after[i]).key != key by {
            let j = choose|j: int|
                0 <= j < slots.len() && after[i] == purged_slot(
                    #[trigger] slots[j],
                    now,
                    idle_timeout,
                    lifetime,
                );
            assert(slots[j].key != key);
        }
        lemma_not_found(after, key);
    }
}

fn keep_fresh<C>(
    idle: Vec<PooledConnection<C>>,
    now: Instant,
    idle_timeout: Duration,
    lifetime: Duration,
) -> (r: Vec<PooledConnection<C>>)
    ensures
        r@ == kept_idle(idle@, now, idle_timeout, lifetime),
{
    let ghost all = idle@;
    let mut pending = idle;
    let mut kept: Vec<PooledConnection<C>> = Vec::new();
    proof {
        assert(all.take(0) =~= Seq::<PooledConnection<C>>::empty());
    }
    while pending.len() > 0
        invariant
            pending@.len() <= all.len(),
            pending@ == all.skip(all.len() - pending@.len()),
            kept@ == kept_idle(all.take(all.len() - pending@.len()), now, idle_timeout, lifetime),
        decreases pending@.len(),
    {
        let ghost n = all.len() - pending@.len();
        let connection = pending.remove(0);
        proof {
            assert(connection == all[n]);
            assert(all.take(n + 1).drop_last() =~= all.take(n));
            assert(all.take(n + 1).last() == connection);
            assert(pending@ =~= all.skip(n + 1));
        }
        if now.duration_since(connection.idle_since).nanos < idle_timeout.nanos
            && now.duration_since(connection.created).nanos < lifetime.nanos {
            kept.push(connection);
        }
    }
    proof {
        assert(all.take(all.len() as int) =~= all);
    }
    kept
}

proof fn lemma_sum_first<C>(slots: Seq<SlotView<C>>)
    requires
        slots.len() > 0,
    ensures
        sum_open(slots) == slots[0].open + sum_open(slots.drop_first()),
    decreases slots.len(),
{
    if slots.len() > 1 {
        lemma_sum_first(slots.drop_last());
        assert(slots.drop_first().drop_last() =~= slots.drop_last().drop_first());
    } else {
        assert(slots.drop_last() =~= Seq::<SlotView<C>>::empty());
        assert(slots.drop_first() =~= Seq::<SlotView<C>>::empty());
    }
}

impl<C> PoolState<C> {
    /// The accounting is consistent.
    pub open spec fn wf(&self) -> bool {
        self@.wf()
    }

    /// A pool without connections.
    pub fn new() -> (r: PoolState<C>)
        ensures
            r.wf(),
            r@.slots == Seq::<SlotView<C>>::empty(),
            r@.total == 0,
    {
        let pool = PoolState { slots: Vec::new(), total: 0 };
        proof {
            assert(pool@.slots =~= Seq::<SlotView<C>>::empty());
        }
        pool
    }

    /// The number of connections.
    pub fn total(&self) -> (r: usize)
        ensures
            r == self@.total,
    {
        self.total
    }

    fn find(&self, key: &OriginKey) -> (r: usize)
        ensures
            r == find_slot(self@.slots, key@),
            r <= self.slots@.len(),
            self@.slots.len() == self.slots@.len(),
    {
        let ghost slots = self@.slots;
        proof {
            lemma_find(slots, key@);
        }
        let mut i: usize = 0;
        while i < self.slots.len()
            invariant
                i <= self.slots@.len(),
                slots == self@.slots,
                slots.len() == self.slots@.len(),
                forall|j: int| 0 <= j < i ==> (#[trigger] slots[j]).key != key@,
                0 <= find_slot(slots, key@) <= slots.len(),
                find_slot(slots, key@) < slots.len() ==> slots[find_slot(slots, key@)].key == key@,
                forall|j: int|
                    0 <= j < find_slot(slots, key@) ==> (#[trigger] slots[j]).key != key@,
            decreases self.slots@.len() - i,
        {
            proof {
                assert(slots[i as int].key == self.slots@[i as int].key@);
            }
            if self.slots[i].key.same(key) {
                return i;
            }
            i += 1;
        }
        i
    }

    /// The number of connections of an origin.
    pub fn open_count(&self, key: &OriginKey) -> (r: usize)
        ensures
            r == self@.open_of(key@),
    {
        let at = self.find(key);
        if at < self.slots.len() {
            proof {
                assert(self@.slots[at as int] == self.slots@[at as int]@);
            }
            self.slots[at].open
        } else {
            0
        }
    }

    /// The number of idle connections of an origin.
    pub fn idle_count(&self, key: &OriginKey) -> (r: usize)
        ensures
            r == self@.idle_of(key@).len(),
    {
        let at = self.find(key);
        if at < self.slots.len() {
            proof {
                assert(self@.slots[at as int] == self.slots@[at as int]@);
            }
            self.slots[at].idle.len()
        } else {
            0
        }
    }

    /// Drop the idle connections that stayed too long.
    pub fn purge_expired(&mut self, now: Instant, idle_timeout: Duration, lifetime: Duration)
        requires
            old(self).wf(),
        ensures
            final(self).wf(),
            final(self)@ == purged(old(self)@, now, idle_timeout, lifetime),
    {
        let ghost all = self@.slots;
        let mut pending: Vec<OriginSlot<C>> = Vec::new();
        pending.append(&mut self.slots);
        let mut kept: Vec<OriginSlot<C>> = Vec::new();
        let ghost mut views = all;
        proof {
            assert(pending@.map_values(|slot: OriginSlot<C>| slot@) =~= all);
            assert(all.take(0) =~= Seq::<SlotView<C>>::empty());
            assert(all.skip(0) =~= all);
            assert(kept@.map_values(|slot: OriginSlot<C>| slot@) =~= Seq::<SlotView<C>>::empty());
            lemma_purged_slots(all, now, idle_timeout, lifetime);
        }
        while pending.len() > 0
            invariant
                slots_wf(all),
                pending@.len() <= all.len(),
                views == all.skip(all.len() - pending@.len()),
                pending@.map_values(|slot: OriginSlot<C>| slot@) == views,
                kept@.map_values(|slot: OriginSlot<C>| slot@) == purged_slots(
                    all.take(all.len() - pending@.len()),
                    now,
                    idle_timeout,
                    lifetime,
                ),
                self.total == sum_open(kept@.map_values(|slot: OriginSlot<C>| slot@)) + sum_open(
                    views,
                ),
            decreases pending@.len(),
        {
            let ghost n = all.len() - pending@.len();
            let ghost kept_before = kept@.map_values(|slot: OriginSlot<C>| slot@);
            let ghost pending_before = pending@;
            proof {
                assert(views[0] == pending@[0]@);
                lemma_sum_first(views);
            }
            let mut slot = pending.remove(0);
            proof {
                assert(slot@ == all[n]);
                assert(all[n].open >= all[n].idle.len());
                assert(all.take(n + 1).drop_last() =~= all.take(n));
                assert(all.take(n + 1).last() == slot@);
                assert(views.drop_first() =~= all.skip(n + 1));
                assert(pending@.map_values(|slot: OriginSlot<C>| slot@) =~= views.drop_first());
                views = views.drop_first();
                lemma_kept_idle_len(slot.idle@, now, idle_timeout, lifetime);
            }
            let before: usize = slot.idle.len();
            let fresh_idle = keep_fresh(slot.idle, now, idle_timeout, lifetime);
            let removed: usize = before - fresh_idle.len();
            slot = OriginSlot { key: slot.key, idle: fresh_idle, open: slot.open - removed };
            proof {
                assert(slot@ == purged_slot(all[n], now, idle_timeout, lifetime));
            }
            self.total = self.total - removed;
            if slot.open > 0 {
                proof {
                    lemma_sum_push(kept_before, slot@);
                }
                kept.push(slot);
                proof {
                    assert(kept@.map_values(|slot: OriginSlot<C>| slot@) =~= kept_before.push(
                        slot@,
                    ));
                }
            }
        }
        proof {
            assert(all.take(all.len() as int) =~= all);
            assert(views =~= Seq::<SlotView<C>>::empty());
        }
        self.slots = kept;
    }

    /// Account for one more leased connection of an origin.
    pub(crate) fn reserve(&mut self, key: &OriginKey)
        requires
            old(self).wf(),
            old(self)@.total < usize::MAX,
        ensures
            final(self).wf(),
            final(self)@ == reserved(old(self)@, key@),
    {
        proof {
            lemma_reserved(self@, key@, key@);
            lemma_origin_within_total(self@, key@);
        }
        let at = self.find(key);
        if at < self.slots.len() {
            let mut slot = self.slots.remove(at);
            proof {
                assert(old(self)@.slots[at as int] == slot@);
            }
            slot.open = slot.open + 1;
            self.slots.insert(at, slot);
            proof {
                assert(self.slots@.map_values(|slot: OriginSlot<C>| slot@) =~= reserved(
                    old(self)@,
                    key@,
                ).slots);
            }
        } else {
            self.slots.push(OriginSlot { key: key.clone(), idle: Vec::new(), open: 1 });
            proof {
                assert(self.slots@.last()@.idle =~= Seq::<PooledConnection<C>>::empty());
                assert(self.slots@.map_values(|slot: OriginSlot<C>| slot@) =~= reserved(
                    old(self)@,
                    key@,
                ).slots);
            }
        }
        self.total = self.total + 1;
    }

    /// Lease the most recently returned idle connection of an origin.
    pub(crate) fn take_idle(&mut self, key: &OriginKey) -> (r: Option<PooledConnection<C>>)
        requires
            old(self).wf(),
        ensures
            final(self).wf(),
            match r {
                Some(connection) => {
                    &&& old(self)@.idle_of(key@).len() > 0
                    &&& connection == old(self)@.idle_of(key@).last()
                    &&& final(self)@ == idle_taken(old(self)@, key@)
                },
                None => old(self)@.idle_of(key@).len() == 0 && *final(self) == *old(self),
            },
    {
        let at = self.find(key);
        if at >= self.slots.len() {
            return None;
        }
        proof {
            assert(self@.slots[at as int] == self.slots@[at as int]@);
        }
        if self.slots[at].idle.len() == 0 {
            return None;
        }
        proof {
            lemma_idle_taken(self@, key@, key@);
        }
        let mut slot = self.slots.remove(at);
        let connection = slot.idle.pop();
        self.slots.insert(at, slot);
        proof {
            assert(self.slots@.map_values(|slot: OriginSlot<C>| slot@) =~= idle_taken(
                old(self)@,
                key@,
            ).slots);
        }
        connection
    }

    /// Make a leased connection of an origin idle.
    fn return_idle(&mut self, key: &OriginKey, connection: PooledConnection<C>)
        requires
            old(self).wf(),
            old(self)@.leased(key@) > 0,
        ensures
            final(self).wf(),
            final(self)@ == idle_returned(old(self)@, key@, connection),
    {
        proof {
            lemma_idle_returned(self@, key@, connection, key@);
            lemma_find(self@.slots, key@);
        }
        let at = self.find(key);
        let mut slot = self.slots.remove(at);
        proof {
            assert(old(self)@.slots[at as int] == slot@);
        }
        slot.idle.push(connection);
        self.slots.insert(at, slot);
        proof {
            assert(self.slots@.map_values(|slot: OriginSlot<C>| slot@) =~= idle_returned(
                old(self)@,
                key@,
                connection,
            ).slots);
        }
    }

    /// Take a leased connection of an origin out of the accounting.
    fn release_slot(&mut self, key: &OriginKey)
        requires
            old(self).wf(),
            old(self)@.leased(key@) > 0,
        ensures
            final(self).wf(),
            final(self)@ == released(old(self)@, key@),
    {
        proof {
            lemma_released(self@, key@, key@);
            lemma_find(self@.slots, key@);
            lemma_origin_within_total(self@, key@);
        }
        let at = self.find(key);
        let mut slot = self.slots.remove(at);
        proof {
            assert(old(self)@.slots[at as int] == slot@);
            assert(self.slots@.map_values(|slot: OriginSlot<C>| slot@) =~= old(
                self,
            )@.slots.remove(at as int));
        }
        if slot.open > 1 {
            slot.open = slot.open - 1;
            self.slots.insert(at, slot);
            proof {
                assert(self.slots@.map_values(|slot: OriginSlot<C>| slot@) =~= released(
                    old(self)@,
                    key@,
                ).slots);
            }
        }
        self.total = self.total - 1;
    }
}

/// Owns one accounted slot of a pool, until it is released or its connection returned.
#[derive(Debug)]
pub struct PoolLease<C> {
    pub key: OriginKey,
    pub request_id: u64,
    pub connection: Option<PooledConnection<C>>,
    pub accounted: bool,
    pub reused_idle_connection: bool,
}

/// What happened to the connection of a request.
#[derive(Debug, Clone, Copy, PartialEq, Eq, Structural)]
pub enum Fate {
    /// It is still in use, or there was none.
    Kept,
    /// It went back to the pool.
    Returned,
    /// It was discarded.
    Discarded,
}

/// The pool, the counters and the fate of a connection after its response was read to the end.
pub open spec fn settled<C>(
    pool: PoolView<C>,
    stats: ClientStats,
    lease: Option<PoolLease<C>>,
    reusable: bool,
    now: Instant,
    lifetime: Duration,
) -> (PoolView<C>, ClientStats, Fate) {
    match lease {
        None => (pool, stats, Fate::Kept),
        Some(lease) => {
            let connection = lease.connection->0;
            if reusable && now.since(connection.created).nanos < lifetime.nanos {
                (
                    idle_returned(
                        pool,
                        lease.key@,
                        PooledConnection { idle_since: now, ..connection },
                    ),
                    stats,
                    Fate::Returned,
                )
            } else {
                discarded(pool, stats, Some(lease))
            }
        },
    }
}

/// The pool, the counters and the fate of a connection that is given up.
pub open spec fn discarded<C>(
    pool: PoolView<C>,
    stats: ClientStats,
    lease: Option<PoolLease<C>>,
) -> (PoolView<C>, ClientStats, Fate) {
    match lease {
        None => (pool, stats, Fate::Kept),
        Some(lease) => (
            released(pool, lease.key@),
            ClientStats {
                connections_discarded: counted(stats.connections_discarded),
                ..stats
            },
            Fate::Discarded,
        ),
    }
}

impl<C> PoolLease<C> {
    /// The lease holds a slot of the pool, if it is accounted at all.
    pub open spec fn held_in(&self, pool: &PoolState<C>) -> bool {
        self.accounted ==> pool@.leased(self.key@) > 0
    }

    /// A lease of a slot whose connection is still to be made.
    pub fn reserved(key: OriginKey, request_id: u64) -> (r: PoolLease<C>)
        ensures
            r.key@ == key@,
            r.request_id == request_id,
            r.connection is None,
            r.accounted,
            !r.reused_idle_connection,
    {
        PoolLease {
            key,
            request_id,
            connection: None,
            accounted: true,
            reused_idle_connection: false,
        }
    }

    /// A lease of an idle connection.
    pub fn with_connection(
        key: OriginKey,
        connection: PooledConnection<C>,
        request_id: u64,
    ) -> (r: PoolLease<C>)
        ensures
            r.key@ == key@,
            r.request_id == request_id,
            r.connection == Some(connection),
            r.accounted,
            r.reused_idle_connection,
    {
        PoolLease {
            key,
            request_id,
            connection: Some(connection),
            accounted: true,
            reused_idle_connection: true,
        }
    }

    /// Give the slot up; the result says whether a connection was discarded.
    pub fn release(self, pool: &mut PoolState<C>, stats: &mut ClientStats) -> (discarded: bool)
        requires
            old(pool).wf(),
            self.held_in(old(pool)),
        ensures
            final(pool).wf(),
            discarded == (self.accounted && self.connection is Some),
            *final(stats) == (if discarded {
                ClientStats {
                    connections_discarded: counted(old(stats).connections_discarded),
                    ..*old(stats)
                }
            } else {
                *old(stats)
            }),
            self.accounted ==> final(pool)@ == released(old(pool)@, self.key@),
            !self.accounted ==> *final(pool) == *old(pool),
    {
        if !self.accounted {
            return false;
        }
        let discarded = self.connection.is_some();
        if discarded {
            stats.connections_discarded = count(stats.connections_discarded);
        }
        pool.release_slot(&self.key);
        discarded
    }

    /// Return the connection to the pool, unless it has been open for too long: then it is
    /// discarded. The result says whether it was.
    pub fn checkin(
        self,
        pool: &mut PoolState<C>,
        stats: &mut ClientStats,
        now: Instant,
        lifetime: Duration,
    ) -> (discarded: bool)
        requires
            old(pool).wf(),
            self.accounted,
            self.held_in(old(pool)),
            self.connection is Some,
        ensures
            final(pool).wf(),
            ({
                let connection = self.connection->0;
                let expired = now.since(connection.created).nanos >= lifetime.nanos;
                &&& discarded == expired
                &&& expired ==> final(pool)@ == released(old(pool)@, self.key@) && *final(stats)
                    == (ClientStats {
                    connections_discarded: counted(old(stats).connections_discarded),
                    ..*old(stats)
                })
                &&& !expired ==> final(pool)@ == idle_returned(
                    old(pool)@,
                    self.key@,
                    (PooledConnection { idle_since: now, ..connection }),
                ) && *final(stats) == *old(stats)
            }),
    {
        let lease = self;
        match lease.connection {
            Some(connection) => {
                if now.duration_since(connection.created).nanos >= lifetime.nanos {
                    stats.connections_discarded = count(stats.connections_discarded);
                    pool.release_slot(&lease.key);
                    return true;
                }
                let idle = PooledConnection {
                    client: connection.client,
                    created: connection.created,
                    idle_since: now,
                };
                pool.return_idle(&lease.key, idle);
                false
            },
            None => false,
        }
    }

    /// A request has ended: its connection goes back to the pool if it can be used again and has
    /// not been open for too long, and is discarded otherwise.
    pub fn settle(
        self,
        reusable: bool,
        pool: &mut PoolState<C>,
        stats: &mut ClientStats,
        now: Instant,
        lifetime: Duration,
    ) -> (fate: Fate)
        requires
            old(pool).wf(),
            self.accounted,
            self.held_in(old(pool)),
            self.connection is Some,
        ensures
            final(pool).wf(),
            (final(pool)@, *final(stats), fate) == settled(
                old(pool)@,
                *old(stats),
                Some(self),
                reusable,
                now,
                lifetime,
            ),
    {
        if reusable {
            if self.checkin(pool, stats, now, lifetime) {
                Fate::Discarded
            } else {
                Fate::Returned
            }
        } else {
            let _discarded = self.release(pool, stats);
            Fate::Discarded
        }
    }
}

} // verus!
