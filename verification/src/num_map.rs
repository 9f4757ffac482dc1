use vstd::prelude::*;

verus! {

/// A finite map from numeric identifiers to values, kept as a list of
/// entries in which no identifier occurs twice.
pub struct NumMap<V> {
    entries: Vec<(u64, V)>,
}

/// The map that a list of entries denotes, the later entry winning.
pub open spec fn num_entries_map<V>(s: Seq<(u64, V)>) -> Map<u64, V>
    decreases s.len(),
{
    if s.len() == 0 {
        Map::empty()
    } else {
        num_entries_map(s.drop_last()).insert(s.last().0, s.last().1)
    }
}

/// No identifier occurs twice in a list of entries.
pub open spec fn num_keys_distinct<V>(s: Seq<(u64, V)>) -> bool {
    forall|i: int, j: int| 0 <= i < s.len() && 0 <= j < s.len() && i != j ==> s[i].0 != s[j].0
}

proof fn num_lemma_entries_map_contains<V>(s: Seq<(u64, V)>, k: u64)
    ensures
        num_entries_map(s).contains_key(k) <==> exists|i: int| 0 <= i < s.len() && s[i].0 == k,
    decreases s.len(),
{
    if s.len() > 0 {
        num_lemma_entries_map_contains(s.drop_last(), k);
        if exists|i: int| 0 <= i < s.len() && s[i].0 == k {
            let i = choose|i: int| 0 <= i < s.len() && s[i].0 == k;
            if i < s.len() - 1 {
                assert(s.drop_last()[i] == s[i]);
            }
        }
        if exists|i: int| 0 <= i < s.drop_last().len() && s.drop_last()[i].0 == k {
            let i = choose|i: int| 0 <= i < s.drop_last().len() && s.drop_last()[i].0 == k;
            assert(s[i] == s.drop_last()[i]);
        }
    }
}

proof fn num_lemma_entries_map_value<V>(s: Seq<(u64, V)>, i: int)
    requires
        num_keys_distinct(s),
        0 <= i < s.len(),
    ensures
        num_entries_map(s).contains_key(s[i].0),
        num_entries_map(s)[s[i].0] == s[i].1,
    decreases s.len(),
{
    num_lemma_entries_map_contains(s, s[i].0);
    if i < s.len() - 1 {
        assert(s.drop_last()[i] == s[i]);
        num_lemma_entries_map_value(s.drop_last(), i);
    }
}

proof fn num_lemma_entries_map_ext<V>(s: Seq<(u64, V)>, t: Seq<(u64, V)>, m: Map<u64, V>)
    requires
        num_keys_distinct(t),
        forall|k: u64| m.contains_key(k) <==> exists|i: int| 0 <= i < t.len() && t[i].0 == k,
        forall|i: int| 0 <= i < t.len() ==> m.contains_key(t[i].0) && m[t[i].0] == t[i].1,
        s == t,
    ensures
        num_entries_map(t) == m,
{
    assert forall|k: u64| #[trigger] num_entries_map(t).contains_key(k) <==> m.contains_key(k) by {
        num_lemma_entries_map_contains(t, k);
    }
    assert forall|k: u64| #[trigger] num_entries_map(t).contains_key(k) implies num_entries_map(t)[k] == m[k] by {
        num_lemma_entries_map_contains(t, k);
        let i = choose|i: int| 0 <= i < t.len() && t[i].0 == k;
        num_lemma_entries_map_value(t, i);
    }
    assert(num_entries_map(t) =~= m);
}

proof fn num_lemma_entries_map_remove<V>(s: Seq<(u64, V)>, i: int)
    requires
        num_keys_distinct(s),
        0 <= i < s.len(),
    ensures
        num_keys_distinct(s.remove(i)),
        num_entries_map(s.remove(i)) == num_entries_map(s).remove(s[i].0),
{
    let t = s.remove(i);
    let m = num_entries_map(s).remove(s[i].0);
    assert forall|a: int, b: int| 0 <= a < t.len() && 0 <= b < t.len() && a != b implies t[a].0 != t[b].0 by {
        let a2 = if a < i { a } else { a + 1 };
        let b2 = if b < i { b } else { b + 1 };
        assert(t[a] == s[a2]);
        assert(t[b] == s[b2]);
    }
    assert forall|k: u64| m.contains_key(k) <==> exists|j: int| 0 <= j < t.len() && t[j].0 == k by {
        num_lemma_entries_map_contains(s, k);
        if m.contains_key(k) {
            let j = choose|j: int| 0 <= j < s.len() && s[j].0 == k;
            assert(j != i);
            let j2 = if j < i { j } else { j - 1 };
            assert(t[j2] == s[j]);
        }
        if exists|j: int| 0 <= j < t.len() && t[j].0 == k {
            let j = choose|j: int| 0 <= j < t.len() && t[j].0 == k;
            let j2 = if j < i { j } else { j + 1 };
            assert(t[j] == s[j2]);
        }
    }
    assert forall|j: int| 0 <= j < t.len() implies m.contains_key(t[j].0) && m[t[j].0] == t[j].1 by {
        let j2 = if j < i { j } else { j + 1 };
        assert(t[j] == s[j2]);
        num_lemma_entries_map_value(s, j2);
    }
    num_lemma_entries_map_ext(t, t, m);
}

proof fn num_lemma_entries_map_update<V>(s: Seq<(u64, V)>, i: int, e: (u64, V))
    requires
        num_keys_distinct(s),
        0 <= i < s.len(),
        e.0 == s[i].0,
    ensures
        num_keys_distinct(s.update(i, e)),
        num_entries_map(s.update(i, e)) == num_entries_map(s).insert(e.0, e.1),
{
    let t = s.update(i, e);
    let m = num_entries_map(s).insert(e.0, e.1);
    assert forall|k: u64| m.contains_key(k) <==> exists|j: int| 0 <= j < t.len() && t[j].0 == k by {
        num_lemma_entries_map_contains(s, k);
        if m.contains_key(k) && k != e.0 {
            let j = choose|j: int| 0 <= j < s.len() && s[j].0 == k;
            assert(t[j] == s[j]);
        }
        if m.contains_key(k) && k == e.0 {
            assert(t[i] == e);
        }
        if exists|j: int| 0 <= j < t.len() && t[j].0 == k {
            let j = choose|j: int| 0 <= j < t.len() && t[j].0 == k;
            assert(s[j].0 == t[j].0);
        }
    }
    assert forall|j: int| 0 <= j < t.len() implies m.contains_key(t[j].0) && m[t[j].0] == t[j].1 by {
        if j != i {
            num_lemma_entries_map_value(s, j);
        }
    }
    num_lemma_entries_map_ext(t, t, m);
}

proof fn num_lemma_entries_map_push<V>(s: Seq<(u64, V)>, e: (u64, V))
    requires
        num_keys_distinct(s),
        !num_entries_map(s).contains_key(e.0),
    ensures
        num_keys_distinct(s.push(e)),
        num_entries_map(s.push(e)) == num_entries_map(s).insert(e.0, e.1),
{
    let t = s.push(e);
    assert(t.drop_last() =~= s);
    assert forall|a: int, b: int| 0 <= a < t.len() && 0 <= b < t.len() && a != b implies t[a].0 != t[b].0 by {
        num_lemma_entries_map_contains(s, e.0);
        if a < s.len() && b < s.len() {
            assert(t[a] == s[a] && t[b] == s[b]);
        } else if a < s.len() {
            assert(t[a] == s[a]);
        } else if b < s.len() {
            assert(t[b] == s[b]);
        }
    }
}

proof fn num_lemma_entries_map_len<V>(s: Seq<(u64, V)>)
    requires
        num_keys_distinct(s),
    ensures
        num_entries_map(s).dom().len() == s.len(),
        num_entries_map(s).dom().finite(),
    decreases s.len(),
{
    if s.len() > 0 {
        let t = s.drop_last();
        assert(num_keys_distinct(t)) by {
            assert forall|a: int, b: int| 0 <= a < t.len() && 0 <= b < t.len() && a != b implies t[a].0 != t[b].0 by {
                assert(t[a] == s[a] && t[b] == s[b]);
            }
        }
        num_lemma_entries_map_len(t);
        num_lemma_entries_map_contains(t, s.last().0);
        if num_entries_map(t).contains_key(s.last().0) {
            let j = choose|j: int| 0 <= j < t.len() && t[j].0 == s.last().0;
            assert(t[j] == s[j]);
            assert(false);
        }
    }
}

impl<V> View for NumMap<V> {
    type V = Map<u64, V>;

    closed spec fn view(&self) -> Map<u64, V> {
        num_entries_map(self.entries@)
    }
}

impl<V> NumMap<V> {
    pub closed spec fn wf(&self) -> bool {
        num_keys_distinct(self.entries@)
    }

    pub fn new() -> (m: Self)
        ensures
            m.wf(),
            m@ == Map::<u64, V>::empty(),
    {
        NumMap { entries: Vec::new() }
    }

    fn find(&self, key: &u64) -> (r: Option<usize>)
        requires
            self.wf(),
        ensures
            match r {
                Some(i) => i < self.entries@.len() && self.entries@[i as int].0 == *key,
                None => !self@.contains_key(*key),
            },
    {
        let mut i: usize = 0;
        while i < self.entries.len()
            invariant
                i <= self.entries@.len(),
                forall|j: int| 0 <= j < i ==> self.entries@[j].0 != *key,
            decreases self.entries@.len() - i,
        {
            if self.entries[i].0 == *key {
                return Some(i);
            }
            i = i + 1;
        }
        proof {
            num_lemma_entries_map_contains(self.entries@, *key);
        }
        None
    }

    pub fn contains_key(&self, key: &u64) -> (r: bool)
        requires
            self.wf(),
        ensures
            r == self@.contains_key(*key),
    {
        match self.find(key) {
            Some(i) => {
                proof {
                    num_lemma_entries_map_value(self.entries@, i as int);
                }
                true
            },
            None => false,
        }
    }

    /// Sets the value of `key`, replacing any value it had.
    pub fn insert(&mut self, key: u64, value: V)
        requires
            old(self).wf(),
        ensures
            final(self).wf(),
            final(self)@ == old(self)@.insert(key, value),
    {
        match self.find(&key) {
            Some(i) => {
                proof {
                    num_lemma_entries_map_update(self.entries@, i as int, (key, value));
                }
                self.entries.set(i, (key, value));
            },
            None => {
                proof {
                    num_lemma_entries_map_push(self.entries@, (key, value));
                }
                self.entries.push((key, value));
            },
        }
    }

    /// Removes `key` and hands back the value it had.
    pub fn remove(&mut self, key: &u64) -> (r: Option<V>)
        requires
            old(self).wf(),
        ensures
            final(self).wf(),
            final(self)@ == old(self)@.remove(*key),
            match r {
                Some(v) => old(self)@.contains_key(*key) && old(self)@[*key] == v,
                None => !old(self)@.contains_key(*key),
            },
    {
        match self.find(key) {
            Some(i) => {
                proof {
                    num_lemma_entries_map_value(self.entries@, i as int);
                    num_lemma_entries_map_remove(self.entries@, i as int);
                }
                let (_, v) = self.entries.remove(i);
                Some(v)
            },
            None => {
                assert(old(self)@.remove(*key) =~= old(self)@);
                None
            },
        }
    }

    /// Whether the map holds no key.
    pub fn is_empty(&self) -> (r: bool)
        requires
            self.wf(),
        ensures
            r == (self@.dom() =~= Set::<u64>::empty()),
    {
        if self.entries.len() == 0 {
            assert(self.entries@ =~= Seq::<(u64, V)>::empty());
            assert(self@ =~= Map::<u64, V>::empty());
            true
        } else {
            proof {
                num_lemma_entries_map_value(self.entries@, 0);
                assert(self@.dom().contains(self.entries@[0].0));
            }
            false
        }
    }

    /// The keys of the map, each once, in the order the map holds them.
    pub fn keys(&self) -> (r: Vec<u64>)
        requires
            self.wf(),
        ensures
            r@.len() == self@.dom().len(),
            forall|i: int| 0 <= i < r@.len() ==> self@.contains_key(#[trigger] r@[i]),
            forall|k: u64| self@.contains_key(k) ==> exists|i: int| 0 <= i < r@.len() && r@[i] == k,
            forall|i: int, j: int| 0 <= i < r@.len() && 0 <= j < r@.len() && i != j ==> r@[i] != r@[j],
    {
        let mut out: Vec<u64> = Vec::new();
        let mut i: usize = 0;
        while i < self.entries.len()
            invariant
                i <= self.entries@.len(),
                self.wf(),
                out@.len() == i,
                forall|j: int| 0 <= j < i ==> out@[j] == self.entries@[j].0,
            decreases self.entries@.len() - i,
        {
            out.push(self.entries[i].0);
            i = i + 1;
        }
        proof {
            assert forall|j: int| 0 <= j < out@.len() implies self@.contains_key(#[trigger] out@[j]) by {
                num_lemma_entries_map_value(self.entries@, j);
            }
            assert forall|k: u64| self@.contains_key(k) implies exists|j: int| 0 <= j < out@.len() && out@[j] == k by {
                num_lemma_entries_map_contains(self.entries@, k);
                let j = choose|j: int| 0 <= j < self.entries@.len() && self.entries@[j].0 == k;
                assert(out@[j] == k);
            }
            num_lemma_entries_map_len(self.entries@);
        }
        out
    }

    pub fn get(&self, key: &u64) -> (r: Option<&V>)
        requires
            self.wf(),
        ensures
            match r {
                Some(v) => self@.contains_key(*key) && self@[*key] == *v,
                None => !self@.contains_key(*key),
            },
    {
        match self.find(key) {
            Some(i) => {
                proof {
                    num_lemma_entries_map_value(self.entries@, i as int);
                }
                Some(&self.entries[i].1)
            },
            None => None,
        }
    }
}

} // verus!
