use vstd::prelude::*;

verus! {

/// Key type of the identifier maps: the characters of a user or order id.
pub type IdView = Seq<char>;

/// A finite map from string identifiers to values, kept as a list of
/// entries in which no identifier occurs twice.
pub struct StrMap<V> {
    entries: Vec<(String, V)>,
}

/// The map that a list of entries denotes, the later entry winning.
pub open spec fn entries_map<V>(s: Seq<(String, V)>) -> Map<IdView, V>
    decreases s.len(),
{
    if s.len() == 0 {
        Map::empty()
    } else {
        entries_map(s.drop_last()).insert(s.last().0@, s.last().1)
    }
}

/// No identifier occurs twice in a list of entries.
pub open spec fn keys_distinct<V>(s: Seq<(String, V)>) -> bool {
    forall|i: int, j: int| 0 <= i < s.len() && 0 <= j < s.len() && i != j ==> s[i].0@ != s[j].0@
}

proof fn lemma_entries_map_contains<V>(s: Seq<(String, V)>, k: IdView)
    ensures
        entries_map(s).contains_key(k) <==> exists|i: int| 0 <= i < s.len() && s[i].0@ == k,
    decreases s.len(),
{
    if s.len() > 0 {
        lemma_entries_map_contains(s.drop_last(), k);
        if exists|i: int| 0 <= i < s.len() && s[i].0@ == k {
            let i = choose|i: int| 0 <= i < s.len() && s[i].0@ == k;
            if i < s.len() - 1 {
                assert(s.drop_last()[i] == s[i]);
            }
        }
        if exists|i: int| 0 <= i < s.drop_last().len() && s.drop_last()[i].0@ == k {
            let i = choose|i: int| 0 <= i < s.drop_last().len() && s.drop_last()[i].0@ == k;
            assert(s[i] == s.drop_last()[i]);
        }
    }
}

proof fn lemma_entries_map_value<V>(s: Seq<(String, V)>, i: int)
    requires
        keys_distinct(s),
        0 <= i < s.len(),
    ensures
        entries_map(s).contains_key(s[i].0@),
        entries_map(s)[s[i].0@] == s[i].1,
    decreases s.len(),
{
    lemma_entries_map_contains(s, s[i].0@);
    if i < s.len() - 1 {
        assert(s.drop_last()[i] == s[i]);
        lemma_entries_map_value(s.drop_last(), i);
    }
}

proof fn lemma_entries_map_ext<V>(s: Seq<(String, V)>, t: Seq<(String, V)>, m: Map<IdView, V>)
    requires
        keys_distinct(t),
        forall|k: IdView| m.contains_key(k) <==> exists|i: int| 0 <= i < t.len() && t[i].0@ == k,
        forall|i: int| 0 <= i < t.len() ==> m.contains_key(t[i].0@) && m[t[i].0@] == t[i].1,
        s == t,
    ensures
        entries_map(t) == m,
{
    assert forall|k: IdView| #[trigger] entries_map(t).contains_key(k) <==> m.contains_key(k) by {
        lemma_entries_map_contains(t, k);
    }
    assert forall|k: IdView| #[trigger] entries_map(t).contains_key(k) implies entries_map(t)[k] == m[k] by {
        lemma_entries_map_contains(t, k);
        let i = choose|i: int| 0 <= i < t.len() && t[i].0@ == k;
        lemma_entries_map_value(t, i);
    }
    assert(entries_map(t) =~= m);
}

proof fn lemma_entries_map_remove<V>(s: Seq<(String, V)>, i: int)
    requires
        keys_distinct(s),
        0 <= i < s.len(),
    ensures
        keys_distinct(s.remove(i)),
        entries_map(s.remove(i)) == entries_map(s).remove(s[i].0@),
{
    let t = s.remove(i);
    let m = entries_map(s).remove(s[i].0@);
    assert forall|a: int, b: int| 0 <= a < t.len() && 0 <= b < t.len() && a != b implies t[a].0@ != t[b].0@ by {
        let a2 = if a < i { a } else { a + 1 };
        let b2 = if b < i { b } else { b + 1 };
        assert(t[a] == s[a2]);
        assert(t[b] == s[b2]);
    }
    assert forall|k: IdView| m.contains_key(k) <==> exists|j: int| 0 <= j < t.len() && t[j].0@ == k by {
        lemma_entries_map_contains(s, k);
        if m.contains_key(k) {
            let j = choose|j: int| 0 <= j < s.len() && s[j].0@ == k;
            assert(j != i);
            let j2 = if j < i { j } else { j - 1 };
            assert(t[j2] == s[j]);
        }
        if exists|j: int| 0 <= j < t.len() && t[j].0@ == k {
            let j = choose|j: int| 0 <= j < t.len() && t[j].0@ == k;
            let j2 = if j < i { j } else { j + 1 };
            assert(t[j] == s[j2]);
        }
    }
    assert forall|j: int| 0 <= j < t.len() implies m.contains_key(t[j].0@) && m[t[j].0@] == t[j].1 by {
        let j2 = if j < i { j } else { j + 1 };
        assert(t[j] == s[j2]);
        lemma_entries_map_value(s, j2);
    }
    lemma_entries_map_ext(t, t, m);
}

proof fn lemma_entries_map_update<V>(s: Seq<(String, V)>, i: int, e: (String, V))
    requires
        keys_distinct(s),
        0 <= i < s.len(),
        e.0@ == s[i].0@,
    ensures
        keys_distinct(s.update(i, e)),
        entries_map(s.update(i, e)) == entries_map(s).insert(e.0@, e.1),
{
    let t = s.update(i, e);
    let m = entries_map(s).insert(e.0@, e.1);
    assert forall|k: IdView| m.contains_key(k) <==> exists|j: int| 0 <= j < t.len() && t[j].0@ == k by {
        lemma_entries_map_contains(s, k);
        if m.contains_key(k) && k != e.0@ {
            let j = choose|j: int| 0 <= j < s.len() && s[j].0@ == k;
            assert(t[j] == s[j]);
        }
        if m.contains_key(k) && k == e.0@ {
            assert(t[i] == e);
        }
        if exists|j: int| 0 <= j < t.len() && t[j].0@ == k {
            let j = choose|j: int| 0 <= j < t.len() && t[j].0@ == k;
            assert(s[j].0@ == t[j].0@);
        }
    }
    assert forall|j: int| 0 <= j < t.len() implies m.contains_key(t[j].0@) && m[t[j].0@] == t[j].1 by {
        if j != i {
            lemma_entries_map_value(s, j);
        }
    }
    lemma_entries_map_ext(t, t, m);
}

proof fn lemma_entries_map_push<V>(s: Seq<(String, V)>, e: (String, V))
    requires
        keys_distinct(s),
        !entries_map(s).contains_key(e.0@),
    ensures
        keys_distinct(s.push(e)),
        entries_map(s.push(e)) == entries_map(s).insert(e.0@, e.1),
{
    let t = s.push(e);
    assert(t.drop_last() =~= s);
    assert forall|a: int, b: int| 0 <= a < t.len() && 0 <= b < t.len() && a != b implies t[a].0@ != t[b].0@ by {
        lemma_entries_map_contains(s, e.0@);
        if a < s.len() && b < s.len() {
            assert(t[a] == s[a] && t[b] == s[b]);
        } else if a < s.len() {
            assert(t[a] == s[a]);
        } else if b < s.len() {
            assert(t[b] == s[b]);
        }
    }
}

proof fn lemma_entries_map_len<V>(s: Seq<(String, V)>)
    requires
        keys_distinct(s),
    ensures
        entries_map(s).dom().len() == s.len(),
        entries_map(s).dom().finite(),
    decreases s.len(),
{
    if s.len() > 0 {
        let t = s.drop_last();
        assert(keys_distinct(t)) by {
            assert forall|a: int, b: int| 0 <= a < t.len() && 0 <= b < t.len() && a != b implies t[a].0@ != t[b].0@ by {
                assert(t[a] == s[a] && t[b] == s[b]);
            }
        }
        lemma_entries_map_len(t);
        lemma_entries_map_contains(t, s.last().0@);
        if entries_map(t).contains_key(s.last().0@) {
            let j = choose|j: int| 0 <= j < t.len() && t[j].0@ == s.last().0@;
            assert(t[j] == s[j]);
            assert(false);
        }
    }
}

impl<V> View for StrMap<V> {
    type V = Map<IdView, V>;

    closed spec fn view(&self) -> Map<IdView, V> {
        entries_map(self.entries@)
    }
}

impl<V> StrMap<V> {
    pub closed spec fn wf(&self) -> bool {
        keys_distinct(self.entries@)
    }

    pub fn new() -> (m: Self)
        ensures
            m.wf(),
            m@ == Map::<IdView, V>::empty(),
    {
        StrMap { entries: Vec::new() }
    }

    fn find(&self, key: &String) -> (r: Option<usize>)
        requires
            self.wf(),
        ensures
            match r {
                Some(i) => i < self.entries@.len() && self.entries@[i as int].0@ == key@,
                None => !self@.contains_key(key@),
            },
    {
        let mut i: usize = 0;
        while i < self.entries.len()
            invariant
                i <= self.entries@.len(),
                forall|j: int| 0 <= j < i ==> self.entries@[j].0@ != key@,
            decreases self.entries@.len() - i,
        {
            if self.entries[i].0 == *key {
                return Some(i);
            }
            i = i + 1;
        }
        proof {
            lemma_entries_map_contains(self.entries@, key@);
        }
        None
    }

    pub fn contains_key(&self, key: &String) -> (r: bool)
        requires
            self.wf(),
        ensures
            r == self@.contains_key(key@),
    {
        match self.find(key) {
            Some(i) => {
                proof {
                    lemma_entries_map_value(self.entries@, i as int);
                }
                true
            },
            None => false,
        }
    }

    /// Sets the value of `key`, replacing any value it had.
    pub fn insert(&mut self, key: String, value: V)
        requires
            old(self).wf(),
        ensures
            final(self).wf(),
            final(self)@ == old(self)@.insert(key@, value),
    {
        match self.find(&key) {
            Some(i) => {
                proof {
                    lemma_entries_map_update(self.entries@, i as int, (key, value));
                }
                self.entries.set(i, (key, value));
            },
            None => {
                proof {
                    lemma_entries_map_push(self.entries@, (key, value));
                }
                self.entries.push((key, value));
            },
        }
    }

    /// Removes `key` and hands back the value it had.
    pub fn remove(&mut self, key: &String) -> (r: Option<V>)
        requires
            old(self).wf(),
        ensures
            final(self).wf(),
            final(self)@ == old(self)@.remove(key@),
            match r {
                Some(v) => old(self)@.contains_key(key@) && old(self)@[key@] == v,
                None => !old(self)@.contains_key(key@),
            },
    {
        match self.find(key) {
            Some(i) => {
                proof {
                    lemma_entries_map_value(self.entries@, i as int);
                    lemma_entries_map_remove(self.entries@, i as int);
                }
                let (_, v) = self.entries.remove(i);
                Some(v)
            },
            None => {
                assert(old(self)@.remove(key@) =~= old(self)@);
                None
            },
        }
    }

    /// Whether the map holds no key.
    pub fn is_empty(&self) -> (r: bool)
        requires
            self.wf(),
        ensures
            r == (self@.dom() =~= Set::<IdView>::empty()),
    {
        if self.entries.len() == 0 {
            assert(self.entries@ =~= Seq::<(String, V)>::empty());
            assert(self@ =~= Map::<IdView, V>::empty());
            true
        } else {
            proof {
                lemma_entries_map_value(self.entries@, 0);
                assert(self@.dom().contains(self.entries@[0].0@));
            }
            false
        }
    }

    /// The keys of the map, each once, in the order the map holds them.
    pub fn keys(&self) -> (r: Vec<String>)
        requires
            self.wf(),
        ensures
            r@.len() == self@.dom().len(),
            forall|i: int| 0 <= i < r@.len() ==> self@.contains_key(#[trigger] r@[i]@),
            forall|k: IdView| self@.contains_key(k) ==> exists|i: int| 0 <= i < r@.len() && r@[i]@ == k,
            forall|i: int, j: int| 0 <= i < r@.len() && 0 <= j < r@.len() && i != j ==> r@[i]@ != r@[j]@,
    {
        let mut out: Vec<String> = Vec::new();
        let mut i: usize = 0;
        while i < self.entries.len()
            invariant
                i <= self.entries@.len(),
                self.wf(),
                out@.len() == i,
                forall|j: int| 0 <= j < i ==> out@[j]@ == self.entries@[j].0@,
            decreases self.entries@.len() - i,
        {
            out.push(self.entries[i].0.clone());
            i = i + 1;
        }
        proof {
            assert forall|j: int| 0 <= j < out@.len() implies self@.contains_key(#[trigger] out@[j]@) by {
                lemma_entries_map_value(self.entries@, j);
            }
            assert forall|k: IdView| self@.contains_key(k) implies exists|j: int| 0 <= j < out@.len() && out@[j]@ == k by {
                lemma_entries_map_contains(self.entries@, k);
                let j = choose|j: int| 0 <= j < self.entries@.len() && self.entries@[j].0@ == k;
                assert(out@[j]@ == k);
            }
            lemma_entries_map_len(self.entries@);
        }
        out
    }

    pub fn get(&self, key: &String) -> (r: Option<&V>)
        requires
            self.wf(),
        ensures
            match r {
                Some(v) => self@.contains_key(key@) && self@[key@] == *v,
                None => !self@.contains_key(key@),
            },
    {
        match self.find(key) {
            Some(i) => {
                proof {
                    lemma_entries_map_value(self.entries@, i as int);
                }
                Some(&self.entries[i].1)
            },
            None => None,
        }
    }
}

/// For each user, the identifiers of the orders the user holds.
pub struct UserOrders {
    users: StrMap<StrMap<()>>,
}

impl View for UserOrders {
    type V = Map<IdView, Set<IdView>>;

    closed spec fn view(&self) -> Map<IdView, Set<IdView>> {
        self.users@.map_values(|s: StrMap<()>| s@.dom())
    }
}

/// The user map after `id` is recorded for `user`.
pub open spec fn with_order(u: Map<IdView, Set<IdView>>, user: IdView, id: IdView) -> Map<IdView, Set<IdView>> {
    u.insert(user, if u.contains_key(user) { u[user].insert(id) } else { set![id] })
}

/// The user map after `id` is dropped from the orders of `user`; when
/// `drop_when_empty` holds and no order of the user is left, the user goes too.
pub open spec fn without_order(u: Map<IdView, Set<IdView>>, user: IdView, id: IdView, drop_when_empty: bool) -> Map<
    IdView,
    Set<IdView>,
> {
    if u.contains_key(user) {
        if drop_when_empty && u[user].remove(id).is_empty() {
            u.remove(user)
        } else {
            u.insert(user, u[user].remove(id))
        }
    } else {
        u
    }
}

impl UserOrders {
    pub closed spec fn wf(&self) -> bool {
        &&& self.users.wf()
        &&& forall|k: IdView| self.users@.contains_key(k) ==> (#[trigger] self.users@[k]).wf()
    }

    pub fn new() -> (r: Self)
        ensures
            r.wf(),
            r@ == Map::<IdView, Set<IdView>>::empty(),
    {
        let r = UserOrders { users: StrMap::new() };
        assert(r@ =~= Map::<IdView, Set<IdView>>::empty());
        r
    }

    /// Records order `id` for `user`.
    pub fn add(&mut self, user: String, id: String)
        requires
            old(self).wf(),
        ensures
            final(self).wf(),
            final(self)@ == with_order(old(self)@, user@, id@),
    {
        let ghost u0 = self@;
        let mut ids = match self.users.remove(&user) {
            Some(ids) => ids,
            None => StrMap::new(),
        };
        let ghost before = ids@;
        ids.insert(id, ());
        self.users.insert(user, ids);
        proof {
            if u0.contains_key(user@) {
                assert(ids@.dom() =~= u0[user@].insert(id@));
            } else {
                assert(ids@.dom() =~= set![id@]);
            }
            assert(self@ =~= with_order(u0, user@, id@));
        }
    }

    /// Drops order `id` from the orders of `user`, and the user too when
    /// `drop_when_empty` holds and the user has no order left.
    pub fn remove_order(&mut self, user: &String, id: &String, drop_when_empty: bool)
        requires
            old(self).wf(),
        ensures
            final(self).wf(),
            final(self)@ == without_order(old(self)@, user@, id@, drop_when_empty),
    {
        let ghost u0 = self@;
        match self.users.remove(user) {
            Some(mut ids) => {
                ids.remove(id);
                if drop_when_empty && ids.is_empty() {
                    assert(self@ =~= without_order(u0, user@, id@, drop_when_empty));
                } else {
                    self.users.insert(user.clone(), ids);
                    assert(ids@.dom() =~= u0[user@].remove(id@));
                    assert(self@ =~= without_order(u0, user@, id@, drop_when_empty));
                }
            },
            None => {
                assert(self@ =~= u0);
            },
        }
    }

    /// The identifiers of the orders of `user`, each once, when the user is
    /// listed.
    pub fn orders_of(&self, user: &String) -> (r: Option<Vec<String>>)
        requires
            self.wf(),
        ensures
            match r {
                Some(ids) => {
                    &&& self@.contains_key(user@)
                    &&& ids@.map_values(|s: String| s@).no_duplicates()
                    &&& ids@.map_values(|s: String| s@).to_set() == self@[user@]
                },
                None => !self@.contains_key(user@),
            },
    {
        match self.users.get(user) {
            Some(ids) => {
                let keys = ids.keys();
                proof {
                    let v = keys@.map_values(|s: String| s@);
                    assert forall|i: int, j: int| 0 <= i < v.len() && 0 <= j < v.len() && i != j implies v[i] != v[j] by {}
                    assert forall|k: IdView| v.to_set().contains(k) <==> self@[user@].contains(k) by {
                        if self@[user@].contains(k) {
                            let i = choose|i: int| 0 <= i < keys@.len() && keys@[i]@ == k;
                            assert(v[i] == k);
                        }
                        if v.to_set().contains(k) {
                            let i = choose|i: int| 0 <= i < v.len() && v[i] == k;
                            assert(ids@.contains_key(keys@[i]@));
                        }
                    }
                    assert(v.to_set() =~= self@[user@]);
                }
                Some(keys)
            },
            None => None,
        }
    }

    /// Removes `user` and hands back the identifiers of the user's orders,
    /// each once.
    pub fn take(&mut self, user: &String) -> (r: Option<Vec<String>>)
        requires
            old(self).wf(),
        ensures
            final(self).wf(),
            final(self)@ == old(self)@.remove(user@),
            match r {
                Some(ids) => {
                    &&& old(self)@.contains_key(user@)
                    &&& ids@.map_values(|s: String| s@).no_duplicates()
                    &&& ids@.map_values(|s: String| s@).to_set() == old(self)@[user@]
                },
                None => !old(self)@.contains_key(user@),
            },
    {
        let ghost u0 = self@;
        match self.users.remove(user) {
            Some(ids) => {
                let keys = ids.keys();
                proof {
                    let v = keys@.map_values(|s: String| s@);
                    assert forall|i: int, j: int| 0 <= i < v.len() && 0 <= j < v.len() && i != j implies v[i] != v[j] by {}
                    assert forall|k: IdView| v.to_set().contains(k) <==> u0[user@].contains(k) by {
                        if u0[user@].contains(k) {
                            let i = choose|i: int| 0 <= i < keys@.len() && keys@[i]@ == k;
                            assert(v[i] == k);
                        }
                        if v.to_set().contains(k) {
                            let i = choose|i: int| 0 <= i < v.len() && v[i] == k;
                            assert(ids@.contains_key(keys@[i]@));
                        }
                    }
                    assert(v.to_set() =~= u0[user@]);
                    assert(self@ =~= u0.remove(user@));
                }
                Some(keys)
            },
            None => {
                assert(self@ =~= u0.remove(user@));
                None
            },
        }
    }
}

} // verus!
