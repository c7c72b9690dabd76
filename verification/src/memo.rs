//! Per-cycle memoization cache.
//!
//! The cache is double buffered: `current` holds the entries inherited from
//! the previous update cycle that have not been consumed yet this cycle, and
//! `next` accumulates the entries requested during this cycle.  At the cycle
//! boundary the host calls [`Memo::end_cycle`], which moves `next` into
//! `current`; entries that were not requested during the cycle are dropped,
//! so the cache stays proportional to live usage.
//!
//! Entries are keyed by a table discriminant chosen by the caller (standing
//! for the pair of key and value types served by that table) together with a
//! key value.

use vstd::prelude::*;

verus! {

/// The entries of one buffer, as a map from (table, key) to the stored value.
pub open spec fn entries_map<V>(s: Seq<(u64, u64, V)>) -> Map<(u64, u64), V>
    decreases s.len(),
{
    if s.len() == 0 {
        Map::empty()
    } else {
        entries_map(s.drop_last()).insert((s.last().0, s.last().1), s.last().2)
    }
}

/// No two entries of one buffer share a (table, key) pair.
pub open spec fn keys_distinct<V>(s: Seq<(u64, u64, V)>) -> bool {
    forall|i: int, j: int|
        0 <= i < j < s.len() ==> (s[i].0, s[i].1) != (s[j].0, s[j].1)
}

proof fn lemma_entries_map_contains<V>(s: Seq<(u64, u64, V)>, tab: u64, key: u64)
    ensures
        entries_map(s).contains_key((tab, key)) <==> exists|i: int|
            0 <= i < s.len() && s[i].0 == tab && s[i].1 == key,
    decreases s.len(),
{
    if s.len() > 0 {
        lemma_entries_map_contains(s.drop_last(), tab, key);
        if entries_map(s).contains_key((tab, key)) {
            if s.last().0 == tab && s.last().1 == key {
                assert(s[s.len() - 1].0 == tab && s[s.len() - 1].1 == key);
            } else {
                let i = choose|i: int|
                    0 <= i < s.drop_last().len() && s.drop_last()[i].0 == tab
                        && s.drop_last()[i].1 == key;
                assert(s[i].0 == tab && s[i].1 == key);
            }
        }
        if exists|i: int| 0 <= i < s.len() && s[i].0 == tab && s[i].1 == key {
            let i = choose|i: int| 0 <= i < s.len() && s[i].0 == tab && s[i].1 == key;
            if i < s.len() - 1 {
                assert(s.drop_last()[i].0 == tab && s.drop_last()[i].1 == key);
            }
        }
    }
}

proof fn lemma_entries_map_index<V>(s: Seq<(u64, u64, V)>, i: int)
    requires
        keys_distinct(s),
        0 <= i < s.len(),
    ensures
        entries_map(s).contains_key((s[i].0, s[i].1)),
        entries_map(s)[(s[i].0, s[i].1)] == s[i].2,
    decreases s.len(),
{
    if i < s.len() - 1 {
        assert(keys_distinct(s.drop_last()));
        lemma_entries_map_index(s.drop_last(), i);
        assert(s.drop_last()[i] == s[i]);
        assert((s.last().0, s.last().1) != (s[i].0, s[i].1));
    }
}

proof fn lemma_entries_map_remove<V>(s: Seq<(u64, u64, V)>, i: int)
    requires
        keys_distinct(s),
        0 <= i < s.len(),
    ensures
        keys_distinct(s.remove(i)),
        entries_map(s.remove(i)) =~= entries_map(s).remove((s[i].0, s[i].1)),
    decreases s.len(),
{
    lemma_entries_map_index(s, i);
    if i == s.len() - 1 {
        assert(s.remove(i) =~= s.drop_last());
        lemma_entries_map_contains(s.drop_last(), s[i].0, s[i].1);
        assert(!entries_map(s.drop_last()).contains_key((s[i].0, s[i].1))) by {
            if entries_map(s.drop_last()).contains_key((s[i].0, s[i].1)) {
                let j = choose|j: int|
                    0 <= j < s.drop_last().len() && s.drop_last()[j].0 == s[i].0
                        && s.drop_last()[j].1 == s[i].1;
                assert((s[j].0, s[j].1) == (s[i].0, s[i].1));
            }
        }
    } else {
        assert(keys_distinct(s.drop_last()));
        lemma_entries_map_remove(s.drop_last(), i);
        assert(s.remove(i).drop_last() =~= s.drop_last().remove(i));
        assert(s.remove(i).last() == s.last());
    }
}

/// How one [`Memo::cache`] call relates the cache before it to the cache
/// after it: `v` is the returned value.  A key already requested this cycle
/// is served from `next` unchanged; a key inherited from the previous cycle
/// is consumed from `current`; in every case the key ends up in `next` bound
/// to the returned value.
pub open spec fn cache_step<V>(pre: Memo<V>, post: Memo<V>, tab: u64, key: u64, v: V) -> bool {
    let k = (tab, key);
    &&& post.swap_is_queued() == (pre.swap_is_queued() || pre.next_map() == Map::<(u64, u64), V>::empty())
    &&& if pre.next_map().contains_key(k) {
        &&& v == pre.next_map()[k]
        &&& post.next_map() == pre.next_map()
        &&& post.current_map() == pre.current_map()
    } else if pre.current_map().contains_key(k) {
        &&& v == pre.current_map()[k]
        &&& post.current_map() == pre.current_map().remove(k)
        &&& post.next_map() == pre.next_map().insert(k, v)
    } else {
        &&& post.current_map() == pre.current_map()
        &&& post.next_map() == pre.next_map().insert(k, v)
    }
}

/// How [`Memo::end_cycle`] relates the cache before the cycle boundary to
/// the cache after it.
pub open spec fn cycle_end_step<V>(pre: Memo<V>, post: Memo<V>) -> bool {
    &&& post.current_map() == pre.next_map()
    &&& post.next_map() == Map::<(u64, u64), V>::empty()
    &&& !post.swap_is_queued()
}

/// Double-buffered per-cycle computation cache.
pub struct Memo<V> {
    current: Vec<(u64, u64, V)>,
    next: Vec<(u64, u64, V)>,
    swap_queued: bool,
}

impl<V> Memo<V> {
    /// Entries inherited from the previous cycle and not yet consumed.
    pub closed spec fn current_map(self) -> Map<(u64, u64), V> {
        entries_map(self.current@)
    }

    /// Entries requested so far during this cycle.
    pub closed spec fn next_map(self) -> Map<(u64, u64), V> {
        entries_map(self.next@)
    }

    /// Whether the boundary swap has been queued for the end of this cycle.
    pub closed spec fn swap_is_queued(self) -> bool {
        self.swap_queued
    }

    pub closed spec fn wf(self) -> bool {
        keys_distinct(self.current@) && keys_distinct(self.next@)
    }

    pub fn new() -> (m: Self)
        ensures
            m.wf(),
            m.current_map() == Map::<(u64, u64), V>::empty(),
            m.next_map() == Map::<(u64, u64), V>::empty(),
            !m.swap_is_queued(),
    {
        Memo { current: Vec::new(), next: Vec::new(), swap_queued: false }
    }
}

impl<V> Default for Memo<V> {
    fn default() -> (m: Self)
        ensures
            m.wf(),
            m.current_map() == Map::<(u64, u64), V>::empty(),
            m.next_map() == Map::<(u64, u64), V>::empty(),
            !m.swap_is_queued(),
    {
        Memo::new()
    }
}

impl<V: Copy> Memo<V> {

    /// Look `key` up in table `tab`; compute it with `value_fn` only if it is
    /// neither in `next` (already requested this cycle) nor in `current`
    /// (inherited from the previous cycle).  The first call of a cycle queues
    /// the boundary swap, which the host performs through
    /// [`Memo::end_cycle`].
    pub fn cache<F: FnOnce() -> V>(&mut self, tab: u64, key: u64, value_fn: F) -> (v: V)
        requires
            old(self).wf(),
            !old(self).next_map().contains_key((tab, key))
                && !old(self).current_map().contains_key((tab, key)) ==> call_requires(
                value_fn,
                (),
            ),
        ensures
            final(self).wf(),
            cache_step(*old(self), *final(self), tab, key, v),
            !old(self).next_map().contains_key((tab, key))
                && !old(self).current_map().contains_key((tab, key)) ==> call_ensures(
                value_fn,
                (),
                v,
            ),
    {
        if self.next.len() == 0 {
            proof {
                assert(self.next@ =~= Seq::<(u64, u64, V)>::empty());
                assert(entries_map(self.next@) =~= Map::<(u64, u64), V>::empty());
            }
            self.swap_queued = true;
        } else {
            proof {
                lemma_entries_map_index(self.next@, 0);
                assert(entries_map(self.next@) != Map::<(u64, u64), V>::empty());
            }
        }
        if let Some(i) = find_entry(&self.next, tab, key) {
            let v = self.next[i].2;
            proof {
                lemma_entries_map_index(self.next@, i as int);
            }
            return v;
        }
        let v = if let Some(i) = find_entry(&self.current, tab, key) {
            let v = self.current[i].2;
            proof {
                lemma_entries_map_index(self.current@, i as int);
                lemma_entries_map_remove(self.current@, i as int);
            }
            self.current.remove(i);
            v
        } else {
            value_fn()
        };
        proof {
            lemma_entries_map_contains(self.next@, tab, key);
        }
        self.next.push((tab, key, v));
        proof {
            assert(self.next@.drop_last() =~= old(self).next@);
        }
        v
    }

    /// The cycle boundary: `current` becomes what this cycle requested and
    /// `next` starts empty for the following cycle.
    pub fn end_cycle(&mut self)
        requires
            old(self).wf(),
        ensures
            final(self).wf(),
            cycle_end_step(*old(self), *final(self)),
    {
        let mut next: Vec<(u64, u64, V)> = Vec::new();
        core::mem::swap(&mut next, &mut self.next);
        self.current = next;
        self.swap_queued = false;
        proof {
            assert(self.next@ =~= Seq::<(u64, u64, V)>::empty());
            assert(entries_map(self.next@) =~= Map::<(u64, u64), V>::empty());
        }
    }
}

/// The index of the entry of `s` for `(tab, key)`, if there is one.
fn find_entry<V>(s: &Vec<(u64, u64, V)>, tab: u64, key: u64) -> (r: Option<usize>)
    ensures
        match r {
            Some(i) => i < s@.len() && s@[i as int].0 == tab && s@[i as int].1 == key,
            None => !entries_map(s@).contains_key((tab, key)),
        },
{
    let mut i: usize = 0;
    while i < s.len()
        invariant
            i <= s@.len(),
            forall|j: int| 0 <= j < i ==> !(s@[j].0 == tab && s@[j].1 == key),
        decreases s@.len() - i,
    {
        if s[i].0 == tab && s[i].1 == key {
            return Some(i);
        }
        i = i + 1;
    }
    proof {
        lemma_entries_map_contains(s@, tab, key);
    }
    None
}

/// Reuse within one cycle: two `cache` calls for the same table and key in
/// one cycle return equal values — the second call is served from `next`,
/// which the first call filled.
pub proof fn lemma_memo_reuse_within_cycle<V>(
    s0: Memo<V>,
    s1: Memo<V>,
    s2: Memo<V>,
    tab: u64,
    key: u64,
    r1: V,
    r2: V,
)
    requires
        cache_step(s0, s1, tab, key, r1),
        cache_step(s1, s2, tab, key, r2),
    ensures
        r2 == r1,
{
    assert(s1.next_map().contains_key((tab, key)));
    assert(s1.next_map()[(tab, key)] == r1);
}

/// Non-carryover without use: a key that was not requested during the cycle
/// that just ended is absent from the whole cache after the boundary.
pub proof fn lemma_memo_unused_key_dropped<V>(s: Memo<V>, s1: Memo<V>, tab: u64, key: u64)
    requires
        cycle_end_step(s, s1),
        !s.next_map().contains_key((tab, key)),
    ensures
        !s1.current_map().contains_key((tab, key)),
        !s1.next_map().contains_key((tab, key)),
{
}

/// Requests for other keys never bring an unrequested key into `next`, so
/// the two lemmas above cover every sequence of calls within a cycle.
pub proof fn lemma_memo_absent_key_preserved<V>(
    s0: Memo<V>,
    s1: Memo<V>,
    tab: u64,
    key: u64,
    tab2: u64,
    key2: u64,
    r: V,
)
    requires
        cache_step(s0, s1, tab2, key2, r),
        (tab2, key2) != (tab, key),
        !s0.next_map().contains_key((tab, key)),
    ensures
        !s1.next_map().contains_key((tab, key)),
{
}

} // verus!
