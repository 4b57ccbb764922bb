//! The process-wide registry of running services: published address to
//! cancellation handle. Insert and lookup are single operations; the caller
//! serializes them (one lock around the registry), so each call sees and
//! leaves a consistent map. No entry is ever removed.

use vstd::prelude::*;

verus! {

/// A cooperative stop signal with exactly two states, armed and cancelled.
/// Cancelling is terminal: nothing re-arms a handle.
pub struct CancellationHandle {
    /// Whether the handle has been cancelled.
    pub cancelled: bool,
}

impl CancellationHandle {
    /// A fresh, armed handle.
    pub fn new() -> (h: CancellationHandle)
        ensures
            !h.cancelled,
    {
        CancellationHandle { cancelled: false }
    }

    /// Cancel the handle. Idempotent, and terminal: the handle stays
    /// cancelled whatever happens later.
    pub fn cancel(&mut self)
        ensures
            final(self).cancelled,
    {
        self.cancelled = true;
    }

    /// Whether the handle has been cancelled.
    pub fn is_cancelled(&self) -> (r: bool)
        ensures
            r == self.cancelled,
    {
        self.cancelled
    }
}

/// Whether no two entries share a key.
pub open spec fn keys_unique<V>(entries: Seq<(String, V)>) -> bool {
    forall|i: int, j: int|
        0 <= i < j < entries.len() ==> #[trigger] entries[i].0@ != #[trigger] entries[j].0@
}

/// The map an entry list denotes; later entries win.
pub open spec fn map_of<V>(entries: Seq<(String, V)>) -> Map<Seq<char>, V>
    decreases entries.len(),
{
    if entries.len() == 0 {
        Map::<Seq<char>, V>::empty()
    } else {
        map_of(entries.drop_last()).insert(entries.last().0@, entries.last().1)
    }
}

proof fn lemma_map_of_contains<V>(entries: Seq<(String, V)>, k: Seq<char>)
    ensures
        map_of(entries).contains_key(k) <==> exists|i: int|
            0 <= i < entries.len() && (#[trigger] entries[i].0)@ == k,
    decreases entries.len(),
{
    if entries.len() == 0 {
    } else {
        lemma_map_of_contains(entries.drop_last(), k);
        if entries.last().0@ == k {
            assert(entries[entries.len() - 1].0@ == k);
        } else if map_of(entries).contains_key(k) {
            let i = choose|i: int|
                0 <= i < entries.drop_last().len() && (#[trigger] entries.drop_last()[i].0)@ == k;
            assert(entries[i].0@ == k);
        } else {
            assert forall|i: int| 0 <= i < entries.len() implies (#[trigger] entries[i].0)@ != k by {
                if i < entries.len() - 1 {
                    assert(entries.drop_last()[i].0@ != k);
                }
            }
        }
    }
}

proof fn lemma_map_of_get<V>(entries: Seq<(String, V)>, i: int)
    requires
        keys_unique(entries),
        0 <= i < entries.len(),
    ensures
        map_of(entries).contains_key(entries[i].0@),
        map_of(entries)[entries[i].0@] == entries[i].1,
    decreases entries.len(),
{
    if i == entries.len() - 1 {
    } else {
        assert(entries[i].0@ != entries[entries.len() - 1].0@);
        assert(keys_unique(entries.drop_last())) by {
            assert forall|a: int, b: int|
                0 <= a < b < entries.drop_last().len() implies (#[trigger] entries.drop_last()[a].0)@
                != (#[trigger] entries.drop_last()[b].0)@ by {
                assert(entries[a].0@ != entries[b].0@);
            }
        }
        assert(entries.drop_last()[i] == entries[i]);
        lemma_map_of_get(entries.drop_last(), i);
    }
}

proof fn lemma_map_of_push<V>(entries: Seq<(String, V)>, p: (String, V))
    ensures
        map_of(entries.push(p)) == map_of(entries).insert(p.0@, p.1),
    decreases entries.len(),
{
    assert(entries.push(p).drop_last() =~= entries);
    assert(entries.push(p).last() == p);
}

proof fn lemma_map_of_update<V>(entries: Seq<(String, V)>, i: int, p: (String, V))
    requires
        keys_unique(entries),
        0 <= i < entries.len(),
        p.0@ == entries[i].0@,
    ensures
        map_of(entries.update(i, p)) =~= map_of(entries).insert(p.0@, p.1),
    decreases entries.len(),
{
    let u = entries.update(i, p);
    if i == entries.len() - 1 {
        assert(u.drop_last() =~= entries.drop_last());
        assert(u.last() == p);
    } else {
        assert(keys_unique(entries.drop_last())) by {
            assert forall|a: int, b: int|
                0 <= a < b < entries.drop_last().len() implies (#[trigger] entries.drop_last()[a].0)@
                != (#[trigger] entries.drop_last()[b].0)@ by {
                assert(entries[a].0@ != entries[b].0@);
            }
        }
        assert(entries.drop_last()[i] == entries[i]);
        lemma_map_of_update(entries.drop_last(), i, p);
        assert(u.drop_last() =~= entries.drop_last().update(i, p));
        assert(u.last() == entries.last());
        assert(entries[i].0@ != entries[entries.len() - 1].0@);
    }
}

/// The registry: a list of (address, handle) entries with pairwise distinct
/// addresses, read as a map from address to handle.
pub struct ServiceRegistry<V> {
    entries: Vec<(String, V)>,
}

impl<V> View for ServiceRegistry<V> {
    type V = Map<Seq<char>, V>;

    closed spec fn view(&self) -> Map<Seq<char>, V> {
        map_of(self.entries@)
    }
}

impl<V> ServiceRegistry<V> {
    /// Entries hold pairwise distinct addresses.
    pub closed spec fn wf(&self) -> bool {
        keys_unique(self.entries@)
    }

    /// An empty registry.
    pub fn new() -> (r: ServiceRegistry<V>)
        ensures
            r.wf(),
            r@ == Map::<Seq<char>, V>::empty(),
    {
        ServiceRegistry { entries: Vec::new() }
    }

    /// Record a service under its address. The new map is exactly the old
    /// one with this one entry set: an entry under any other address is
    /// untouched, and a previous handle under the same address is replaced.
    pub fn register(&mut self, address: String, handle: V)
        requires
            old(self).wf(),
        ensures
            final(self).wf(),
            final(self)@ == old(self)@.insert(address@, handle),
    {
        let ghost orig = self.entries@;
        let n = self.entries.len();
        let mut i: usize = 0;
        while i < n
            invariant
                keys_unique(orig),
                orig == old(self).entries@,
                self.entries@ == orig,
                n == orig.len(),
                i <= n,
                forall|j: int| 0 <= j < i ==> (#[trigger] orig[j].0)@ != address@,
            decreases n - i,
        {
            if self.entries[i].0 == address {
                proof {
                    lemma_map_of_update(orig, i as int, (address, handle));
                }
                self.entries[i] = (address, handle);
                proof {
                    assert(keys_unique(self.entries@)) by {
                        assert forall|a: int, b: int|
                            0 <= a < b < self.entries@.len() implies (
                            #[trigger] self.entries@[a].0)@ != (#[trigger] self.entries@[b].0)@ by {
                            if a != i && b != i {
                                assert(orig[a].0@ != orig[b].0@);
                            } else {
                                assert(orig[a].0@ != orig[b].0@);
                            }
                        }
                    }
                }
                return;
            }
            i += 1;
        }
        proof {
            lemma_map_of_push(orig, (address, handle));
            assert(keys_unique(orig.push((address, handle)))) by {
                assert forall|a: int, b: int|
                    0 <= a < b < orig.push((address, handle)).len() implies (
                    #[trigger] orig.push((address, handle))[a].0)@ != (#[trigger] orig.push(
                    (address, handle),
                )[b].0)@ by {
                    if b < orig.len() {
                        assert(orig[a].0@ != orig[b].0@);
                    }
                }
            }
        }
        self.entries.push((address, handle));
    }

    /// Look a service up by its address: the handle registered under it, if
    /// any.
    pub fn lookup(&self, address: &String) -> (r: Option<&V>)
        requires
            self.wf(),
        ensures
            match r {
                Some(v) => self@.contains_key(address@) && *v == self@[address@],
                None => !self@.contains_key(address@),
            },
    {
        let n = self.entries.len();
        let mut i: usize = 0;
        while i < n
            invariant
                keys_unique(self.entries@),
                n == self.entries@.len(),
                i <= n,
                forall|j: int| 0 <= j < i ==> (#[trigger] self.entries@[j].0)@ != address@,
            decreases n - i,
        {
            if self.entries[i].0 == *address {
                proof {
                    lemma_map_of_get(self.entries@, i as int);
                }
                return Some(&self.entries[i].1);
            }
            i += 1;
        }
        proof {
            lemma_map_of_contains(self.entries@, address@);
        }
        None
    }

    /// How many services are registered.
    pub fn len(&self) -> (n: usize)
        requires
            self.wf(),
        ensures
            n == self@.len(),
    {
        proof {
            lemma_map_of_len(self.entries@);
        }
        self.entries.len()
    }
}

proof fn lemma_map_of_len<V>(entries: Seq<(String, V)>)
    requires
        keys_unique(entries),
    ensures
        map_of(entries).dom().finite(),
        map_of(entries).len() == entries.len(),
    decreases entries.len(),
{
    if entries.len() == 0 {
        assert(map_of(entries) =~= Map::<Seq<char>, V>::empty());
    } else {
        assert(keys_unique(entries.drop_last())) by {
            assert forall|a: int, b: int|
                0 <= a < b < entries.drop_last().len() implies (#[trigger] entries.drop_last()[a].0)@
                != (#[trigger] entries.drop_last()[b].0)@ by {
                assert(entries[a].0@ != entries[b].0@);
            }
        }
        lemma_map_of_len(entries.drop_last());
        lemma_map_of_contains(entries.drop_last(), entries.last().0@);
        assert forall|i: int|
            0 <= i < entries.drop_last().len() implies (#[trigger] entries.drop_last()[i].0)@
            != entries.last().0@ by {
            assert(entries[i].0@ != entries[entries.len() - 1].0@);
        }
    }
}

/// Law: inserts under distinct addresses never lose one another, whatever
/// their order — after both, each address holds its own handle, and the two
/// orders give the same map. A lookup after a completed register observes
/// the registered handle.
pub proof fn lemma_distinct_registers_kept<V>(
    m: Map<Seq<char>, V>,
    k1: Seq<char>,
    v1: V,
    k2: Seq<char>,
    v2: V,
)
    requires
        k1 != k2,
    ensures
        m.insert(k1, v1).insert(k2, v2).contains_key(k1),
        m.insert(k1, v1).insert(k2, v2).contains_key(k2),
        m.insert(k1, v1).insert(k2, v2)[k1] == v1,
        m.insert(k1, v1).insert(k2, v2)[k2] == v2,
        m.insert(k1, v1).insert(k2, v2) =~= m.insert(k2, v2).insert(k1, v1),
{
}

} // verus!
