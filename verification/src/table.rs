//! A table of values by host and port.

use vstd::prelude::*;

use crate::text::{lowercase, lowercase_text, text_eq};

verus! {

/// A host name, compared without regard to letter case, and a port.
#[derive(Debug)]
pub struct HostKey {
    host: String,
    port: u16,
}

/// The mathematical side of a [`HostKey`].
pub struct HostView {
    pub host: Seq<char>,
    pub port: u16,
}

impl View for HostKey {
    type V = HostView;

    closed spec fn view(&self) -> HostView {
        HostView { host: self.host@, port: self.port }
    }
}

/// The key of a host and a port.
pub open spec fn host_key(host: Seq<char>, port: u16) -> HostView {
    HostView { host: lowercase(host), port }
}

impl HostKey {
    pub fn new(host: &str, port: u16) -> (r: HostKey)
        ensures
            r@ == host_key(host@, port),
    {
        HostKey { host: lowercase_text(host), port }
    }

    /// Whether two keys are equal.
    pub fn same(&self, other: &HostKey) -> (r: bool)
        ensures
            r == (self@ == other@),
    {
        self.port == other.port && text_eq(self.host.as_str(), other.host.as_str())
    }
}

impl Clone for HostKey {
    fn clone(&self) -> (r: HostKey)
        ensures
            r@ == self@,
    {
        HostKey { host: self.host.clone(), port: self.port }
    }
}

/// Values by host and port; each key stands once.
#[derive(Debug)]
pub struct Table<V> {
    slots: Vec<(HostKey, V)>,
}

/// The map that a list of entries makes up.
pub open spec fn map_of<V>(slots: Seq<(HostView, V)>) -> Map<HostView, V>
    decreases slots.len(),
{
    if slots.len() == 0 {
        Map::empty()
    } else {
        map_of(slots.drop_last()).insert(slots.last().0, slots.last().1)
    }
}

/// No key stands twice.
pub open spec fn keys_distinct<V>(slots: Seq<(HostView, V)>) -> bool {
    forall|i: int, j: int|
        0 <= i < j < slots.len() ==> (#[trigger] slots[i]).0 != (#[trigger] slots[j]).0
}

impl<V> View for Table<V> {
    type V = Map<HostView, V>;

    closed spec fn view(&self) -> Map<HostView, V> {
        map_of(self.entries())
    }
}

proof fn lemma_map<V>(slots: Seq<(HostView, V)>)
    requires
        keys_distinct(slots),
    ensures
        forall|i: int|
            0 <= i < slots.len() ==> map_of(slots).contains_key((#[trigger] slots[i]).0)
                && map_of(slots)[slots[i].0] == slots[i].1,
        forall|k: HostView| #[trigger]
            map_of(slots).contains_key(k) ==> exists|i: int|
                0 <= i < slots.len() && (#[trigger] slots[i]).0 == k,
        map_of(slots).dom().finite(),
        map_of(slots).dom().len() == slots.len(),
    decreases slots.len(),
{
    if slots.len() > 0 {
        let before = slots.drop_last();
        assert(keys_distinct(before)) by {
            assert forall|i: int, j: int| 0 <= i < j < before.len() implies (#[trigger] before[i]).0
                != (#[trigger] before[j]).0 by {
                assert(before[i] == slots[i] && before[j] == slots[j]);
            }
        }
        lemma_map(before);
        let last = slots.len() - 1;
        assert(!map_of(before).contains_key(slots[last].0)) by {
            if map_of(before).contains_key(slots[last].0) {
                let i = choose|i: int|
                    0 <= i < before.len() && (#[trigger] before[i]).0 == slots[last].0;
                assert(before[i] == slots[i]);
                assert(slots[i].0 != slots[last].0);
            }
        }
        assert forall|i: int| 0 <= i < slots.len() implies map_of(slots).contains_key(
            (#[trigger] slots[i]).0,
        ) && map_of(slots)[slots[i].0] == slots[i].1 by {
            if i < last {
                assert(before[i] == slots[i]);
                assert(slots[i].0 != slots[last].0);
            }
        }
        assert forall|k: HostView| #[trigger] map_of(slots).contains_key(k) implies exists|i: int|
            0 <= i < slots.len() && (#[trigger] slots[i]).0 == k by {
            if k == slots[last].0 {
                assert(slots[last].0 == k);
            } else {
                let i = choose|i: int| 0 <= i < before.len() && (#[trigger] before[i]).0 == k;
                assert(slots[i] == before[i]);
            }
        }
        assert(map_of(slots).dom() =~= map_of(before).dom().insert(slots[last].0));
    } else {
        assert(map_of(slots).dom() =~= Set::<HostView>::empty());
    }
}

proof fn lemma_removed<V>(slots: Seq<(HostView, V)>, at: int)
    requires
        keys_distinct(slots),
        0 <= at < slots.len(),
    ensures
        keys_distinct(slots.remove(at)),
        map_of(slots.remove(at)) == map_of(slots).remove(slots[at].0),
{
    let after = slots.remove(at);
    let k0 = slots[at].0;
    assert forall|i: int| 0 <= i < after.len() implies #[trigger] after[i] == (if i < at {
        slots[i]
    } else {
        slots[i + 1]
    }) by {}
    assert(keys_distinct(after)) by {
        assert forall|i: int, j: int| 0 <= i < j < after.len() implies (#[trigger] after[i]).0 != (
        #[trigger] after[j]).0 by {
            let si = if i < at {
                i
            } else {
                i + 1
            };
            let sj = if j < at {
                j
            } else {
                j + 1
            };
            assert(slots[si].0 != slots[sj].0);
        }
    }
    lemma_map(slots);
    lemma_map(after);
    assert forall|k: HostView| map_of(after).contains_key(k) <==> map_of(slots).remove(
        k0,
    ).contains_key(k) by {
        if map_of(after).contains_key(k) {
            let i = choose|i: int| 0 <= i < after.len() && (#[trigger] after[i]).0 == k;
            let si = if i < at {
                i
            } else {
                i + 1
            };
            assert(slots[si].0 == k);
            if si < at {
                assert(slots[si].0 != slots[at].0);
            } else {
                assert(slots[at].0 != slots[si].0);
            }
        }
        if map_of(slots).remove(k0).contains_key(k) {
            let i = choose|i: int| 0 <= i < slots.len() && (#[trigger] slots[i]).0 == k;
            let moved = if i < at {
                i
            } else {
                i - 1
            };
            assert(after[moved] == slots[i]);
        }
    }
    assert forall|k: HostView| #[trigger] map_of(after).contains_key(k) implies map_of(after)[k]
        == map_of(slots)[k] by {
        let i = choose|i: int| 0 <= i < after.len() && (#[trigger] after[i]).0 == k;
        let si = if i < at {
            i
        } else {
            i + 1
        };
        assert(slots[si] == after[i]);
    }
    assert(map_of(after) =~= map_of(slots).remove(k0));
}

impl<V> Table<V> {
    /// The entries, in the order in which they are held.
    pub closed spec fn entries(&self) -> Seq<(HostView, V)> {
        self.slots@.map_values(|slot: (HostKey, V)| (slot.0@, slot.1))
    }

    /// Each key stands once.
    pub closed spec fn wf(&self) -> bool {
        keys_distinct(self.entries())
    }

    /// The entries are those of the map.
    pub proof fn lemma_entries(&self)
        requires
            self.wf(),
        ensures
            keys_distinct(self.entries()),
            self@ == map_of(self.entries()),
            self@.dom().finite(),
            self@.dom().len() == self.entries().len(),
            forall|i: int|
                0 <= i < self.entries().len() ==> self@.contains_key((#[trigger] self.entries()[i]).0)
                    && self@[self.entries()[i].0] == self.entries()[i].1,
            forall|k: HostView| #[trigger]
                self@.contains_key(k) ==> exists|i: int|
                    0 <= i < self.entries().len() && (#[trigger] self.entries()[i]).0 == k,
    {
        lemma_map(self.entries());
    }

    pub fn new() -> (r: Table<V>)
        ensures
            r.wf(),
            r@ == Map::<HostView, V>::empty(),
    {
        let table = Table { slots: Vec::new() };
        proof {
            assert(table.entries() =~= Seq::<(HostView, V)>::empty());
        }
        table
    }

    pub fn len(&self) -> (r: usize)
        requires
            self.wf(),
        ensures
            r == self@.dom().len(),
            r == self.entries().len(),
    {
        proof {
            self.lemma_entries();
        }
        self.slots.len()
    }

    fn find(&self, key: &HostKey) -> (r: Option<usize>)
        requires
            self.wf(),
        ensures
            match r {
                Some(at) => at < self.slots@.len() && self.entries()[at as int].0 == key@
                    && self@.contains_key(key@),
                None => !self@.contains_key(key@),
            },
    {
        let mut i: usize = 0;
        while i < self.slots.len()
            invariant
                i <= self.slots@.len(),
                self.wf(),
                self.entries().len() == self.slots@.len(),
                forall|j: int| 0 <= j < i ==> (#[trigger] self.entries()[j]).0 != key@,
            decreases self.slots@.len() - i,
        {
            proof {
                assert(self.entries()[i as int].0 == self.slots@[i as int].0@);
            }
            if self.slots[i].0.same(key) {
                proof {
                    self.lemma_entries();
                }
                return Some(i);
            }
            i += 1;
        }
        proof {
            self.lemma_entries();
        }
        None
    }

    pub fn contains(&self, key: &HostKey) -> (r: bool)
        requires
            self.wf(),
        ensures
            r == self@.contains_key(key@),
    {
        self.find(key).is_some()
    }

    /// Take the value of a key out of the table.
    pub fn remove(&mut self, key: &HostKey) -> (r: Option<V>)
        requires
            old(self).wf(),
        ensures
            final(self).wf(),
            final(self)@ == old(self)@.remove(key@),
            match r {
                Some(value) => old(self)@.contains_key(key@) && value == old(self)@[key@],
                None => !old(self)@.contains_key(key@),
            },
    {
        match self.find(key) {
            Some(at) => {
                proof {
                    self.lemma_entries();
                    lemma_removed(self.entries(), at as int);
                }
                let slot = self.slots.remove(at);
                proof {
                    assert(self.entries() =~= old(self).entries().remove(at as int));
                    assert(old(self).entries()[at as int] == (slot.0@, slot.1));
                }
                Some(slot.1)
            },
            None => {
                proof {
                    assert(self@.remove(key@) =~= self@);
                }
                None
            },
        }
    }

    /// Set the value of a key.
    pub fn insert(&mut self, key: HostKey, value: V)
        requires
            old(self).wf(),
        ensures
            final(self).wf(),
            final(self)@ == old(self)@.insert(key@, value),
    {
        let _previous = self.remove(&key);
        let ghost before = self.entries();
        proof {
            self.lemma_entries();
            assert forall|i: int| 0 <= i < before.len() implies (#[trigger] before[i]).0 != key@ by {
                assert(self@.contains_key(before[i].0));
            }
        }
        self.slots.push((key, value));
        proof {
            assert(self.entries() =~= before.push((key@, value)));
            assert(self.entries().drop_last() =~= before);
            assert(self@ =~= old(self)@.insert(key@, value));
        }
    }

    /// The entry at a position.
    pub fn entry_at(&self, at: usize) -> (r: (&HostKey, &V))
        requires
            at < self.entries().len(),
        ensures
            r.0@ == self.entries()[at as int].0,
            *r.1 == self.entries()[at as int].1,
    {
        let slot = &self.slots[at];
        (&slot.0, &slot.1)
    }

    /// Take the entry at a position out of the table.
    pub fn remove_at(&mut self, at: usize) -> (r: V)
        requires
            old(self).wf(),
            at < old(self).entries().len(),
        ensures
            final(self).wf(),
            final(self).entries() == old(self).entries().remove(at as int),
            final(self)@ == old(self)@.remove(old(self).entries()[at as int].0),
            r == old(self).entries()[at as int].1,
    {
        proof {
            lemma_removed(self.entries(), at as int);
        }
        let slot = self.slots.remove(at);
        proof {
            assert(self.entries() =~= old(self).entries().remove(at as int));
            assert(old(self).entries()[at as int] == (slot.0@, slot.1));
        }
        slot.1
    }

    /// Empty the table.
    pub fn clear(&mut self)
        ensures
            final(self).wf(),
            final(self)@ == Map::<HostView, V>::empty(),
    {
        self.slots.clear();
        proof {
            assert(self.entries() =~= Seq::<(HostView, V)>::empty());
        }
    }
}

} // verus!
