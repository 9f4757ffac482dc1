use vstd::prelude::*;

use crate::id_map::{IdView, StrMap};
use crate::num_map::NumMap;

verus! {

/// Query parameters of a WebSocket connection request.
pub struct WsQuery {
    pub token: Option<String>,
}

/// The registry of open WebSocket sessions: which user, if any, each
/// connection belongs to, and for each user the connections opened for them.
pub struct WsManager {
    sessions: NumMap<Option<String>>,
    by_user: StrMap<Vec<u64>>,
    next_id: u64,
    /// The last order book snapshot sent to clients, as JSON text.
    pub last_orderbook: Option<String>,
}

/// The abstract state of the session registry.
#[verifier::ext_equal]
pub struct WsView {
    pub sessions: Map<u64, Option<IdView>>,
    pub by_user: Map<IdView, Seq<u64>>,
    pub next_id: u64,
    pub last_orderbook: Option<Seq<char>>,
}

/// The characters of an optional text.
pub open spec fn user_view(u: Option<String>) -> Option<IdView> {
    match u {
        Some(s) => Some(s@),
        None => None,
    }
}

impl View for WsManager {
    type V = WsView;

    closed spec fn view(&self) -> WsView {
        WsView {
            sessions: self.sessions@.map_values(|u: Option<String>| user_view(u)),
            by_user: self.by_user@.map_values(|v: Vec<u64>| v@),
            next_id: self.next_id,
            last_orderbook: user_view(self.last_orderbook),
        }
    }
}

/// Every session id is below the next id to hand out; each user's list is
/// non-empty, has no repeats and names exactly the sessions of that user.
pub open spec fn ws_wf(w: WsView) -> bool {
    &&& forall|id: u64| #[trigger] w.sessions.contains_key(id) ==> id < w.next_id
    &&& forall|u: IdView|
        #[trigger] w.by_user.contains_key(u) ==> w.by_user[u].len() > 0 && w.by_user[u].no_duplicates()
    &&& forall|u: IdView, k: int|
        w.by_user.contains_key(u) && 0 <= k < w.by_user[u].len() ==> w.sessions.contains_key(#[trigger] w.by_user[u][k])
            && w.sessions[w.by_user[u][k]] == Some(u)
    &&& forall|id: u64|
        #[trigger] w.sessions.contains_key(id) && w.sessions[id] is Some ==> w.by_user.contains_key(w.sessions[id]->0)
            && w.by_user[w.sessions[id]->0].contains(id)
}

/// `l` lists, each once, the open sessions of `user`; none when there is no
/// user.
pub open spec fn sessions_listed(w: WsView, user: Option<IdView>, l: Seq<u64>) -> bool {
    &&& l.no_duplicates()
    &&& forall|id: u64| l.contains(id) <==> user is Some && w.sessions.contains_key(id) && w.sessions[id] == user
}

/// The registry after a session of `user` is opened under the next id.
pub open spec fn spec_register(w: WsView, user: Option<IdView>) -> WsView {
    let id = w.next_id;
    WsView {
        sessions: w.sessions.insert(id, user),
        by_user: match user {
            Some(u) => w.by_user.insert(
                u,
                if w.by_user.contains_key(u) {
                    w.by_user[u].push(id)
                } else {
                    seq![id]
                },
            ),
            None => w.by_user,
        },
        next_id: (id + 1) as u64,
        last_orderbook: w.last_orderbook,
    }
}

/// `s` without the occurrences of `id`.
pub open spec fn without_id(s: Seq<u64>, id: u64) -> Seq<u64>
    decreases s.len(),
{
    if s.len() == 0 {
        s
    } else if s.last() == id {
        without_id(s.drop_last(), id)
    } else {
        without_id(s.drop_last(), id).push(s.last())
    }
}

/// The registry after session `id` is closed: it leaves the sessions and its
/// user's list, and a user left with no session goes.
pub open spec fn spec_unregister(w: WsView, id: u64) -> WsView {
    if w.sessions.contains_key(id) {
        WsView {
            sessions: w.sessions.remove(id),
            by_user: match w.sessions[id] {
                Some(u) => if w.by_user.contains_key(u) {
                    if without_id(w.by_user[u], id).len() == 0 {
                        w.by_user.remove(u)
                    } else {
                        w.by_user.insert(u, without_id(w.by_user[u], id))
                    }
                } else {
                    w.by_user
                },
                None => w.by_user,
            },
            ..w
        }
    } else {
        w
    }
}

proof fn lemma_without_id(s: Seq<u64>, id: u64)
    ensures
        forall|x: u64| without_id(s, id).contains(x) <==> s.contains(x) && x != id,
        s.no_duplicates() ==> without_id(s, id).no_duplicates(),
        !s.contains(id) ==> without_id(s, id) == s,
    decreases s.len(),
{
    if s.len() > 0 {
        let t = s.drop_last();
        lemma_without_id(t, id);
        assert forall|x: u64| without_id(s, id).contains(x) <==> s.contains(x) && x != id by {
            let w = without_id(s, id);
            let wt = without_id(t, id);
            if s.contains(x) && x != id {
                let i = choose|i: int| 0 <= i < s.len() && s[i] == x;
                if i < s.len() - 1 {
                    assert(t[i] == x);
                    assert(t.contains(x));
                    assert(wt.contains(x));
                    let j = choose|j: int| 0 <= j < wt.len() && wt[j] == x;
                    if s.last() == id {
                        assert(w[j] == x);
                    } else {
                        assert(w[j] == wt[j]);
                    }
                } else {
                    assert(w[w.len() - 1] == x);
                }
            }
            if w.contains(x) {
                let i = choose|i: int| 0 <= i < w.len() && w[i] == x;
                if s.last() != id && i == w.len() - 1 {
                    assert(s[s.len() - 1] == x);
                } else {
                    assert(wt[i] == x);
                    assert(wt.contains(x));
                    assert(t.contains(x));
                    let j = choose|j: int| 0 <= j < t.len() && t[j] == x;
                    assert(s[j] == t[j]);
                }
            }
        }
        if s.no_duplicates() {
            assert(t.no_duplicates()) by {
                assert forall|i: int, j: int| 0 <= i < t.len() && 0 <= j < t.len() && i != j implies t[i] != t[j] by {
                    assert(t[i] == s[i] && t[j] == s[j]);
                }
            }
            if s.last() != id {
                assert(!t.contains(s.last())) by {
                    if t.contains(s.last()) {
                        let j = choose|j: int| 0 <= j < t.len() && t[j] == s.last();
                        assert(s[j] == s[s.len() - 1]);
                    }
                }
                assert(!without_id(t, id).contains(s.last()));
                let w = without_id(s, id);
                assert forall|i: int, j: int| 0 <= i < w.len() && 0 <= j < w.len() && i != j implies w[i] != w[j] by {
                    if i == w.len() - 1 {
                        assert(without_id(t, id).contains(w[j]));
                    } else if j == w.len() - 1 {
                        assert(without_id(t, id).contains(w[i]));
                    }
                }
            }
        }
        if !s.contains(id) {
            assert(!t.contains(id)) by {
                if t.contains(id) {
                    let j = choose|j: int| 0 <= j < t.len() && t[j] == id;
                    assert(s[j] == id);
                }
            }
            assert(s.last() != id);
            assert(t.push(s.last()) =~= s);
        }
    }
}

/// Closing a session right after it was opened leaves the registry as it
/// was, but for the next id to hand out.
pub proof fn law_unregister_undoes_register(w: WsView, user: Option<IdView>)
    requires
        ws_wf(w),
        w.next_id < u64::MAX,
    ensures
        spec_unregister(spec_register(w, user), w.next_id) == (WsView { next_id: (w.next_id + 1) as u64, ..w }),
{
    let id = w.next_id;
    let r = spec_register(w, user);
    let u2 = spec_unregister(r, id);
    assert(!w.sessions.contains_key(id));
    assert(u2.sessions =~= w.sessions);
    match user {
        Some(u) => {
            if w.by_user.contains_key(u) {
                let l = w.by_user[u];
                assert(l.push(id).drop_last() =~= l);
                assert(!l.contains(id)) by {
                    if l.contains(id) {
                        let k = choose|k: int| 0 <= k < l.len() && l[k] == id;
                        assert(w.sessions.contains_key(l[k]));
                    }
                }
                lemma_without_id(l, id);
                assert(without_id(l.push(id), id) == l);
                assert(u2.by_user =~= w.by_user);
            } else {
                let one = seq![id];
                assert(one.drop_last() =~= Seq::<u64>::empty());
                assert(one.last() == id);
                assert(without_id(one.drop_last(), id) =~= Seq::<u64>::empty());
                assert(without_id(one, id) =~= Seq::<u64>::empty());
                assert(u2.by_user =~= w.by_user);
            }
        },
        None => {},
    }
    assert(u2 =~= (WsView { next_id: (w.next_id + 1) as u64, ..w }));
}

impl WsManager {
    pub closed spec fn wf(&self) -> bool {
        &&& self.sessions.wf()
        &&& self.by_user.wf()
        &&& ws_wf(self@)
    }

    /// An empty registry; the first session gets id 1.
    pub fn new() -> (r: Self)
        ensures
            r.wf(),
            r@.sessions == Map::<u64, Option<IdView>>::empty(),
            r@.by_user == Map::<IdView, Seq<u64>>::empty(),
            r@.next_id == 1,
            r@.last_orderbook is None,
    {
        let r = WsManager { sessions: NumMap::new(), by_user: StrMap::new(), next_id: 1, last_orderbook: None };
        assert(r@.sessions =~= Map::<u64, Option<IdView>>::empty());
        assert(r@.by_user =~= Map::<IdView, Seq<u64>>::empty());
        r
    }

    /// A well-formed registry meets the registry invariant [`ws_wf`] that the
    /// laws of the registry are stated over.
    pub proof fn lemma_wf_registry(&self)
        requires
            self.wf(),
        ensures
            ws_wf(self@),
    {
    }

    /// The id the next session will get.
    pub fn next_id(&self) -> (r: u64)
        ensures
            r == self@.next_id,
    {
        self.next_id
    }

    /// Opens a session for `user_id` (none for an anonymous connection) and
    /// hands back its id.
    pub fn register(&mut self, user_id: Option<String>) -> (id: u64)
        requires
            old(self).wf(),
            old(self)@.next_id < u64::MAX,
        ensures
            final(self).wf(),
            id == old(self)@.next_id,
            final(self)@ == spec_register(old(self)@, user_view(user_id)),
    {
        let ghost w = self@;
        let id = self.next_id;
        self.next_id = self.next_id + 1;
        match &user_id {
            Some(uid) => {
                let mut ids = match self.by_user.remove(uid) {
                    Some(ids) => ids,
                    None => Vec::new(),
                };
                ids.push(id);
                self.by_user.insert(uid.clone(), ids);
            },
            None => {},
        }
        self.sessions.insert(id, user_id);
        proof {
            let target = spec_register(w, user_view(user_id));
            assert(self@.sessions =~= target.sessions);
            assert(self@.by_user =~= target.by_user);
            assert(ws_wf(self@)) by {
                assert forall|u: IdView, k: int|
                    self@.by_user.contains_key(u) && 0 <= k < self@.by_user[u].len() implies self@.sessions.contains_key(
                    #[trigger] self@.by_user[u][k]) && self@.sessions[self@.by_user[u][k]] == Some(u) by {
                    if user_view(user_id) == Some(u) && w.by_user.contains_key(u) && k < w.by_user[u].len() {
                        assert(self@.by_user[u][k] == w.by_user[u][k]);
                    }
                }
                assert forall|u: IdView| #[trigger] self@.by_user.contains_key(u) implies self@.by_user[u].len() > 0
                    && self@.by_user[u].no_duplicates() by {
                    if user_view(user_id) == Some(u) && w.by_user.contains_key(u) {
                        let l = w.by_user[u];
                        assert forall|a: int, b: int| 0 <= a < l.push(id).len() && 0 <= b < l.push(id).len() && a != b implies l.push(id)[a]
                            != l.push(id)[b] by {
                            if a < l.len() {
                                assert(w.sessions.contains_key(l[a]));
                            }
                            if b < l.len() {
                                assert(w.sessions.contains_key(l[b]));
                            }
                        }
                    }
                }
                assert forall|x: u64| #[trigger] self@.sessions.contains_key(x) && self@.sessions[x] is Some implies self@.by_user.contains_key(
                    self@.sessions[x]->0) && self@.by_user[self@.sessions[x]->0].contains(x) by {
                    if x == id {
                        let u = self@.sessions[x]->0;
                        assert(self@.by_user[u].last() == id);
                    } else {
                        let u = w.sessions[x]->0;
                        if user_view(user_id) == Some(u) {
                            let k = choose|k: int| 0 <= k < w.by_user[u].len() && w.by_user[u][k] == x;
                            assert(self@.by_user[u][k] == x);
                        }
                    }
                }
            }
        }
        id
    }

    /// Closes session `id`: it leaves the registry and its user's list, and a
    /// user left with no session is forgotten.
    pub fn unregister(&mut self, id: u64)
        requires
            old(self).wf(),
        ensures
            final(self).wf(),
            final(self)@ == spec_unregister(old(self)@, id),
    {
        let ghost w = self@;
        if let Some(user_id) = self.sessions.remove(&id) {
            if let Some(uid) = user_id {
                if let Some(ids) = self.by_user.remove(&uid) {
                    let ghost l = ids@;
                    let mut kept: Vec<u64> = Vec::new();
                    let n = ids.len();
                    let mut i: usize = 0;
                    while i < n
                        invariant
                            n == l.len(),
                            l == ids@,
                            i <= n,
                            kept@ == without_id(l.take(i as int), id),
                        decreases n - i,
                    {
                        proof {
                            assert(l.take(i + 1).drop_last() =~= l.take(i as int));
                        }
                        if ids[i] != id {
                            kept.push(ids[i]);
                        }
                        i = i + 1;
                    }
                    assert(l.take(n as int) =~= l);
                    if kept.len() > 0 {
                        self.by_user.insert(uid, kept);
                    }
                }
            }
            proof {
                let target = spec_unregister(w, id);
                assert(self@.sessions =~= target.sessions);
                assert(self@.by_user =~= target.by_user);
                let uo = w.sessions[id];
                if uo is Some {
                    lemma_without_id(w.by_user[uo->0], id);
                }
                assert(ws_wf(self@)) by {
                    assert forall|u: IdView| #[trigger] self@.by_user.contains_key(u) implies self@.by_user[u].len() > 0
                        && self@.by_user[u].no_duplicates() by {}
                    assert forall|u: IdView, k: int|
                        self@.by_user.contains_key(u) && 0 <= k < self@.by_user[u].len() implies self@.sessions.contains_key(
                        #[trigger] self@.by_user[u][k]) && self@.sessions[self@.by_user[u][k]] == Some(u) by {
                        let x = self@.by_user[u][k];
                        if uo == Some(u) {
                            assert(self@.by_user[u] == without_id(w.by_user[u], id));
                            assert(without_id(w.by_user[u], id).contains(x));
                            assert(w.by_user[u].contains(x));
                            let j = choose|j: int| 0 <= j < w.by_user[u].len() && w.by_user[u][j] == x;
                            assert(w.sessions.contains_key(w.by_user[u][j]));
                            assert(x != id);
                        } else {
                            assert(w.by_user[u][k] == x);
                            assert(w.sessions[x] == Some(u));
                        }
                    }
                    assert forall|x: u64| #[trigger] self@.sessions.contains_key(x) && self@.sessions[x] is Some implies self@.by_user.contains_key(
                        self@.sessions[x]->0) && self@.by_user[self@.sessions[x]->0].contains(x) by {
                        let u = w.sessions[x]->0;
                        assert(w.by_user.contains_key(u) && w.by_user[u].contains(x));
                        if uo == Some(u) {
                            assert(without_id(w.by_user[u], id).contains(x));
                        }
                    }
                }
            }
        } else {
            assert(self@ =~= spec_unregister(w, id));
        }
    }

    /// The ids of all open sessions, each once: where a message to every
    /// client goes.
    pub fn broadcast_targets(&self) -> (r: Vec<u64>)
        requires
            self.wf(),
        ensures
            r@.no_duplicates(),
            forall|id: u64| r@.contains(id) <==> self@.sessions.contains_key(id),
    {
        let r = self.sessions.keys();
        proof {
            assert forall|id: u64| r@.contains(id) <==> self@.sessions.contains_key(id) by {
                if self@.sessions.contains_key(id) {
                    assert(self.sessions@.contains_key(id));
                    let i = choose|i: int| 0 <= i < r@.len() && r@[i] == id;
                }
            }
        }
        r
    }

    /// Where the message of a fill goes, in turn: the sessions of the buying
    /// user, if the fill names one, then those of the selling user, if it
    /// names one (a user on both sides is reached twice).
    pub fn fill_targets(&self, buy_user: &Option<String>, sell_user: &Option<String>) -> (r: Vec<u64>)
        requires
            self.wf(),
        ensures
            exists|a: Seq<u64>, b: Seq<u64>|
                #![trigger sessions_listed(self@, user_view(*buy_user), a), sessions_listed(self@, user_view(*sell_user), b)]
                sessions_listed(self@, user_view(*buy_user), a) && sessions_listed(self@, user_view(*sell_user), b) && r@ == a + b,
    {
        let mut out: Vec<u64> = match buy_user {
            Some(u) => self.unicast_targets(u),
            None => Vec::new(),
        };
        let ghost a = out@;
        let mut more: Vec<u64> = match sell_user {
            Some(u) => self.unicast_targets(u),
            None => Vec::new(),
        };
        let ghost b = more@;
        out.append(&mut more);
        assert(sessions_listed(self@, user_view(*buy_user), a));
        assert(sessions_listed(self@, user_view(*sell_user), b));
        out
    }

    /// The ids of the open sessions of `user_id`: where a message for that
    /// user goes.
    pub fn unicast_targets(&self, user_id: &String) -> (r: Vec<u64>)
        requires
            self.wf(),
        ensures
            r@.no_duplicates(),
            forall|id: u64| r@.contains(id) <==> self@.sessions.contains_key(id) && self@.sessions[id] == Some(user_id@),
    {
        let mut out: Vec<u64> = Vec::new();
        match self.by_user.get(user_id) {
            Some(ids) => {
                let n = ids.len();
                let mut i: usize = 0;
                while i < n
                    invariant
                        self.wf(),
                        self.by_user@.contains_key(user_id@),
                        ids@ == self@.by_user[user_id@],
                        n == ids@.len(),
                        i <= n,
                        out@ == ids@.take(i as int),
                    decreases n - i,
                {
                    if self.sessions.contains_key(&ids[i]) {
                        out.push(ids[i]);
                    }
                    proof {
                        assert(self@.sessions.contains_key(ids@[i as int]));
                    }
                    i = i + 1;
                    assert(out@ =~= ids@.take(i as int));
                }
                proof {
                    assert(ids@.take(n as int) =~= ids@);
                    assert forall|id: u64| out@.contains(id) <==> self@.sessions.contains_key(id) && self@.sessions[id] == Some(
                        user_id@,
                    ) by {
                        if self@.sessions.contains_key(id) && self@.sessions[id] == Some(user_id@) {
                            assert(self@.by_user[user_id@].contains(id));
                        }
                        if out@.contains(id) {
                            let k = choose|k: int| 0 <= k < out@.len() && out@[k] == id;
                            assert(self@.sessions.contains_key(self@.by_user[user_id@][k]));
                        }
                    }
                }
            },
            None => {
                proof {
                    assert forall|id: u64| !(self@.sessions.contains_key(id) && self@.sessions[id] == Some(user_id@)) by {
                        if self@.sessions.contains_key(id) && self@.sessions[id] == Some(user_id@) {
                            assert(self@.by_user.contains_key(user_id@));
                        }
                    }
                }
            },
        }
        out
    }
}

} // verus!
