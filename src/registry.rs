//! The subscriber registry: the status of each path (subscribed, or a
//! subscription in flight with the callers waiting on it) and the durable
//! subscriptions, alive or dead. Handles are held as the caller's weak
//! references (`H`, `D`); whether one still upgrades is handed in.

use vstd::prelude::*;
use crate::value::SubError;

verus! {

/// Status of one path.
pub enum SubStatus<H, Wt> {
    /// Subscribed; `H` refers weakly to the live handle.
    Subscribed(H),
    /// A subscription is in flight; these callers wait on its outcome.
    Pending(Vec<Wt>),
}

pub enum StatusV<H, Wt> {
    Subscribed(H),
    Pending(Seq<Wt>),
}

impl<H, Wt> View for SubStatus<H, Wt> {
    type V = StatusV<H, Wt>;

    open spec fn view(&self) -> StatusV<H, Wt> {
        match self {
            SubStatus::Subscribed(h) => StatusV::Subscribed(*h),
            SubStatus::Pending(ws) => StatusV::Pending(ws@),
        }
    }
}

/// What the first phase of a subscribe decided for one path.
#[derive(Debug, Clone, Copy, PartialEq, Eq, Structural)]
pub enum DedupAction {
    /// This caller resolves and subscribes the path.
    Resolve,
    /// Another caller is subscribing it; wait for that outcome.
    WaitOther,
    /// Already subscribed with a live handle.
    Existing,
}

pub open spec fn key_has<T>(s: Seq<(Seq<char>, T)>, k: Seq<char>) -> bool {
    exists|i: int| 0 <= i < s.len() && #[trigger] s[i].0 == k
}

/// Where key `k` sits.
pub open spec fn key_index<T>(s: Seq<(Seq<char>, T)>, k: Seq<char>) -> int {
    choose|i: int| 0 <= i < s.len() && #[trigger] s[i].0 == k
}

pub open spec fn keys_distinct<T>(s: Seq<(Seq<char>, T)>) -> bool {
    forall|i: int, j: int|
        0 <= i < s.len() && 0 <= j < s.len() && i != j ==> #[trigger] s[i].0 != #[trigger] s[j].0
}

/// `s` with key `k` bound to `x`: in place if present, else appended.
pub open spec fn key_set<T>(s: Seq<(Seq<char>, T)>, k: Seq<char>, x: T) -> Seq<(Seq<char>, T)> {
    if key_has(s, k) {
        s.update(key_index(s, k), (k, x))
    } else {
        s.push((k, x))
    }
}

/// `s` without key `k`.
pub open spec fn key_del<T>(s: Seq<(Seq<char>, T)>, k: Seq<char>) -> Seq<(Seq<char>, T)> {
    if key_has(s, k) {
        s.remove(key_index(s, k))
    } else {
        s
    }
}

pub open spec fn keyed_view<T>(s: Seq<(String, T)>) -> Seq<(Seq<char>, T)> {
    s.map_values(|e: (String, T)| (e.0@, e.1))
}

/// The first phase of a subscribe for one path: the decision and the
/// status table after it. `live` says whether a subscribed handle still
/// upgrades; `w` is this caller's waiter.
pub open spec fn dedup_spec<H, Wt>(s: Seq<(Seq<char>, StatusV<H, Wt>)>, p: Seq<char>, live: bool, w: Wt) -> (
    DedupAction,
    Seq<(Seq<char>, StatusV<H, Wt>)>,
) {
    if !key_has(s, p) {
        (DedupAction::Resolve, s.push((p, StatusV::Pending(Seq::empty()))))
    } else {
        let k = key_index(s, p);
        match s[k].1 {
            StatusV::Pending(ws) => (DedupAction::WaitOther, s.update(k, (p, StatusV::Pending(ws.push(w))))),
            StatusV::Subscribed(_) => if live {
                (DedupAction::Existing, s)
            } else {
                (DedupAction::Resolve, s.update(k, (p, StatusV::Pending(Seq::empty()))))
            },
        }
    }
}

/// The callers waiting on path `p`.
pub open spec fn waiters_of<H, Wt>(s: Seq<(Seq<char>, StatusV<H, Wt>)>, p: Seq<char>) -> Seq<Wt> {
    if key_has(s, p) {
        match s[key_index(s, p)].1 {
            StatusV::Pending(ws) => ws,
            StatusV::Subscribed(_) => Seq::empty(),
        }
    } else {
        Seq::empty()
    }
}

pub open spec fn is_pending<H, Wt>(s: Seq<(Seq<char>, StatusV<H, Wt>)>, p: Seq<char>) -> bool {
    key_has(s, p) && s[key_index(s, p)].1 is Pending
}

pub open spec fn is_subscribed<H, Wt>(s: Seq<(Seq<char>, StatusV<H, Wt>)>, p: Seq<char>) -> bool {
    key_has(s, p) && s[key_index(s, p)].1 is Subscribed
}

proof fn lemma_key_index<T>(s: Seq<(Seq<char>, T)>, i: int)
    requires
        keys_distinct(s),
        0 <= i < s.len(),
    ensures
        key_has(s, s[i].0),
        key_index(s, s[i].0) == i,
{
    assert(s[i].0 == s[i].0);
}

proof fn lemma_key_set<T>(s: Seq<(Seq<char>, T)>, k: Seq<char>, x: T)
    requires
        keys_distinct(s),
    ensures
        keys_distinct(key_set(s, k, x)),
        key_has(key_set(s, k, x), k),
        key_set(s, k, x)[key_index(key_set(s, k, x), k)].1 == x,
        forall|q: Seq<char>| q != k ==> (key_has(key_set(s, k, x), q) == key_has(s, q)),
{
    let t = key_set(s, k, x);
    if key_has(s, k) {
        let i = key_index(s, k);
        assert forall|a: int, b: int| 0 <= a < t.len() && 0 <= b < t.len() && a != b implies #[trigger] t[a].0
            != #[trigger] t[b].0 by {
            if a != i && b != i {
                assert(t[a] == s[a] && t[b] == s[b]);
            } else if a == i {
                assert(t[b] == s[b]);
            } else {
                assert(t[a] == s[a]);
            }
        }
        lemma_key_index(t, i);
        assert forall|q: Seq<char>| q != k implies (key_has(t, q) == key_has(s, q)) by {
            if key_has(s, q) {
                let j = key_index(s, q);
                assert(t[j] == s[j]);
            }
            if key_has(t, q) {
                let j = key_index(t, q);
                assert(t[j] == s[j]);
            }
        }
    } else {
        assert forall|a: int, b: int| 0 <= a < t.len() && 0 <= b < t.len() && a != b implies #[trigger] t[a].0
            != #[trigger] t[b].0 by {
            if a < s.len() && b < s.len() {
                assert(t[a] == s[a] && t[b] == s[b]);
            } else if a < s.len() {
                assert(t[a] == s[a]);
            } else {
                assert(t[b] == s[b]);
            }
        }
        lemma_key_index(t, s.len() as int);
        assert forall|q: Seq<char>| q != k implies (key_has(t, q) == key_has(s, q)) by {
            if key_has(s, q) {
                let j = key_index(s, q);
                assert(t[j] == s[j]);
            }
            if key_has(t, q) {
                let j = key_index(t, q);
                assert(t[j] == s[j]);
            }
        }
    }
}

proof fn lemma_key_del<T>(s: Seq<(Seq<char>, T)>, k: Seq<char>)
    requires
        keys_distinct(s),
    ensures
        keys_distinct(key_del(s, k)),
        !key_has(key_del(s, k), k),
        forall|q: Seq<char>| q != k ==> (key_has(key_del(s, k), q) == key_has(s, q)),
{
    let t = key_del(s, k);
    if key_has(s, k) {
        let i = key_index(s, k);
        assert forall|a: int, b: int| 0 <= a < t.len() && 0 <= b < t.len() && a != b implies #[trigger] t[a].0
            != #[trigger] t[b].0 by {
            let a0 = if a < i { a } else { a + 1 };
            let b0 = if b < i { b } else { b + 1 };
            assert(t[a] == s[a0] && t[b] == s[b0]);
        }
        assert(!key_has(t, k)) by {
            if key_has(t, k) {
                let j = key_index(t, k);
                let j0 = if j < i { j } else { j + 1 };
                assert(t[j] == s[j0]);
            }
        }
        assert forall|q: Seq<char>| q != k implies (key_has(t, q) == key_has(s, q)) by {
            if key_has(s, q) {
                let j = key_index(s, q);
                if j < i {
                    assert(t[j] == s[j]);
                } else {
                    assert(j != i);
                    assert(t[j - 1] == s[j]);
                }
            }
            if key_has(t, q) {
                let j = key_index(t, q);
                let j0 = if j < i { j } else { j + 1 };
                assert(t[j] == s[j0]);
            }
        }
    }
}

/// Index of key `k` in `v`.
fn find_key<T>(v: &Vec<(String, T)>, k: &String) -> (r: Option<usize>)
    requires
        keys_distinct(keyed_view(v@)),
    ensures
        r is None <==> !key_has(keyed_view(v@), k@),
        r matches Some(i) ==> i < v@.len() && i == key_index(keyed_view(v@), k@),
{
    let ghost kv = keyed_view(v@);
    let mut i: usize = 0;
    while i < v.len()
        invariant
            i <= v@.len(),
            kv == keyed_view(v@),
            keys_distinct(kv),
            forall|j: int| 0 <= j < i ==> #[trigger] kv[j].0 != k@,
        decreases v.len() - i,
    {
        if v[i].0 == *k {
            proof {
                lemma_key_index(kv, i as int);
            }
            return Some(i);
        }
        i = i + 1;
    }
    None
}

/// Bind key `k` to `x` in `v`.
fn set_key<T>(v: &mut Vec<(String, T)>, k: String, x: T)
    requires
        keys_distinct(keyed_view(old(v)@)),
    ensures
        keyed_view(final(v)@) == key_set(keyed_view(old(v)@), k@, x),
        keys_distinct(keyed_view(final(v)@)),
{
    let ghost kv = keyed_view(v@);
    let ghost kk = k@;
    let ghost xx = x;
    match find_key(v, &k) {
        Some(i) => {
            v.set(i, (k, x));
            assert(keyed_view(v@) =~= kv.update(i as int, (kk, xx)));
        },
        None => {
            v.push((k, x));
            assert(keyed_view(v@) =~= kv.push((kk, xx)));
        },
    }
    proof {
        lemma_key_set(kv, kk, xx);
    }
}

/// Remove key `k` from `v`, handing back what it was bound to.
fn del_key<T>(v: &mut Vec<(String, T)>, k: &String) -> (r: Option<T>)
    requires
        keys_distinct(keyed_view(old(v)@)),
    ensures
        keyed_view(final(v)@) == key_del(keyed_view(old(v)@), k@),
        keys_distinct(keyed_view(final(v)@)),
        r is None <==> !key_has(keyed_view(old(v)@), k@),
        r matches Some(x) ==> x == keyed_view(old(v)@)[key_index(keyed_view(old(v)@), k@)].1,
{
    let ghost kv = keyed_view(v@);
    proof {
        lemma_key_del(kv, k@);
    }
    match find_key(v, k) {
        Some(i) => {
            let e = v.remove(i);
            assert(keyed_view(v@) =~= kv.remove(i as int));
            Some(e.1)
        },
        None => None,
    }
}


pub open spec fn status_view<H, Wt>(s: Seq<(String, SubStatus<H, Wt>)>) -> Seq<(Seq<char>, StatusV<H, Wt>)> {
    s.map_values(|e: (String, SubStatus<H, Wt>)| (e.0@, e.1@))
}

proof fn lemma_status_keys<H, Wt>(s: Seq<(String, SubStatus<H, Wt>)>)
    requires
        keys_distinct(keyed_view(s)),
    ensures
        keys_distinct(status_view(s)),
        forall|k: Seq<char>| #[trigger] key_has(status_view(s), k) == key_has(keyed_view(s), k),
{
    let a = status_view(s);
    let b = keyed_view(s);
    assert forall|i: int| 0 <= i < s.len() implies #[trigger] a[i].0 == b[i].0 by {}
    assert forall|k: Seq<char>| #[trigger] key_has(a, k) == key_has(b, k) by {
        if key_has(a, k) {
            let i = key_index(a, k);
            assert(b[i].0 == k);
        }
        if key_has(b, k) {
            let i = key_index(b, k);
            assert(a[i].0 == k);
        }
    }
}

/// The registry of one subscriber.
pub struct Registry<H, Wt, D> {
    subscribed: Vec<(String, SubStatus<H, Wt>)>,
    durable_alive: Vec<(String, D)>,
    durable_dead: Vec<(String, D)>,
}

impl<H, Wt, D> Registry<H, Wt, D> {
    /// Status of each path.
    pub closed spec fn status_v(&self) -> Seq<(Seq<char>, StatusV<H, Wt>)> {
        status_view(self.subscribed@)
    }

    /// Durable subscriptions that are subscribed.
    pub closed spec fn alive_v(&self) -> Seq<(Seq<char>, D)> {
        keyed_view(self.durable_alive@)
    }

    /// Durable subscriptions waiting to be resubscribed.
    pub closed spec fn dead_v(&self) -> Seq<(Seq<char>, D)> {
        keyed_view(self.durable_dead@)
    }

    /// One entry per path in each table, and no durable path both alive and
    /// dead.
    pub open spec fn wf(&self) -> bool {
        &&& keys_distinct(self.status_v())
        &&& keys_distinct(self.alive_v())
        &&& keys_distinct(self.dead_v())
        &&& forall|p: Seq<char>| !(#[trigger] key_has(self.alive_v(), p) && key_has(self.dead_v(), p))
    }

    closed spec fn raw_wf(&self) -> bool {
        keys_distinct(keyed_view(self.subscribed@))
    }

    pub fn new() -> (r: Registry<H, Wt, D>)
        ensures
            r.wf(),
            r.status_v() == Seq::<(Seq<char>, StatusV<H, Wt>)>::empty(),
            r.alive_v() == Seq::<(Seq<char>, D)>::empty(),
            r.dead_v() == Seq::<(Seq<char>, D)>::empty(),
    {
        let r = Registry { subscribed: Vec::new(), durable_alive: Vec::new(), durable_dead: Vec::new() };
        assert(r.status_v() =~= Seq::<(Seq<char>, StatusV<H, Wt>)>::empty());
        assert(r.alive_v() =~= Seq::<(Seq<char>, D)>::empty());
        assert(r.dead_v() =~= Seq::<(Seq<char>, D)>::empty());
        r
    }

    proof fn lemma_raw(&self)
        requires
            self.wf(),
        ensures
            self.raw_wf(),
            forall|k: Seq<char>| #[trigger] key_has(self.status_v(), k) == key_has(keyed_view(self.subscribed@), k),
    {
        let a = self.status_v();
        let b = keyed_view(self.subscribed@);
        assert forall|i: int, j: int| 0 <= i < b.len() && 0 <= j < b.len() && i != j implies #[trigger] b[i].0
            != #[trigger] b[j].0 by {
            assert(a[i].0 == b[i].0 && a[j].0 == b[j].0);
        }
        lemma_status_keys(self.subscribed@);
    }

    /// First phase of a subscribe, for one path. With no entry, or with a
    /// subscribed handle that no longer upgrades (`live` false), the path
    /// becomes pending and this caller resolves it. With a subscription in
    /// flight, `waiter` joins the callers waiting on it. With a live handle
    /// nothing changes.
    pub fn dedup(&mut self, path: String, live: bool, waiter: Wt) -> (r: DedupAction)
        requires
            old(self).wf(),
        ensures
            final(self).wf(),
            final(self).alive_v() == old(self).alive_v(),
            final(self).dead_v() == old(self).dead_v(),
            (r, final(self).status_v()) == dedup_spec(old(self).status_v(), path@, live, waiter),
    {
        let ghost sv = self.status_v();
        let ghost p = path@;
        let ghost w = waiter;
        proof {
            self.lemma_raw();
        }
        match find_key(&self.subscribed, &path) {
            None => {
                self.subscribed.push((path, SubStatus::Pending(Vec::new())));
                proof {
                    assert(self.status_v() =~= sv.push((p, StatusV::<H, Wt>::Pending(Seq::empty()))));
                    lemma_key_set(sv, p, StatusV::<H, Wt>::Pending(Seq::empty()));
                }
                DedupAction::Resolve
            },
            Some(i) => {
                proof {
                    lemma_key_index(sv, i as int);
                }
                let e = self.subscribed.remove(i);
                let (k, st) = e;
                let r = match st {
                    SubStatus::Pending(ws) => {
                        let mut ws = ws;
                        ws.push(waiter);
                        self.subscribed.insert(i, (k, SubStatus::Pending(ws)));
                        DedupAction::WaitOther
                    },
                    SubStatus::Subscribed(h) => {
                        if live {
                            self.subscribed.insert(i, (k, SubStatus::Subscribed(h)));
                            DedupAction::Existing
                        } else {
                            self.subscribed.insert(i, (k, SubStatus::Pending(Vec::new())));
                            DedupAction::Resolve
                        }
                    },
                };
                proof {
                    let x = self.status_v()[i as int];
                    assert(self.status_v() =~= sv.update(i as int, x));
                    lemma_key_set(sv, p, x.1);
                    assert(x.0 == p);
                    if r == DedupAction::Existing {
                        assert(self.status_v() =~= sv);
                    }
                }
                r
            },
        }
    }

    /// The weak handle a subscribed path holds, for the caller to upgrade.
    pub fn subscribed_handle(&self, path: &String) -> (r: Option<&H>)
        requires
            self.wf(),
        ensures
            r is Some <==> is_subscribed(self.status_v(), path@),
            r matches Some(h) ==> self.status_v()[key_index(self.status_v(), path@)].1 == StatusV::<
                H,
                Wt,
            >::Subscribed(*h),
    {
        proof {
            self.lemma_raw();
        }
        match find_key(&self.subscribed, path) {
            Some(i) => {
                proof {
                    lemma_key_index(self.status_v(), i as int);
                }
                match &self.subscribed[i].1 {
                    SubStatus::Subscribed(h) => Some(h),
                    SubStatus::Pending(_) => None,
                }
            },
            None => None,
        }
    }

    /// Last phase of a successful subscribe: the path now refers to `h`,
    /// and every caller that waited on it is handed back to be told.
    pub fn finish_ok(&mut self, path: String, h: H) -> (r: Vec<Wt>)
        requires
            old(self).wf(),
        ensures
            final(self).wf(),
            final(self).alive_v() == old(self).alive_v(),
            final(self).dead_v() == old(self).dead_v(),
            final(self).status_v() == key_set(old(self).status_v(), path@, StatusV::Subscribed(h)),
            r@ == waiters_of(old(self).status_v(), path@),
    {
        let ghost sv = self.status_v();
        let ghost p = path@;
        let ghost hh = h;
        proof {
            self.lemma_raw();
            lemma_key_set(sv, p, StatusV::<H, Wt>::Subscribed(hh));
        }
        match find_key(&self.subscribed, &path) {
            None => {
                self.subscribed.push((path, SubStatus::Subscribed(h)));
                assert(self.status_v() =~= sv.push((p, StatusV::<H, Wt>::Subscribed(hh))));
                Vec::new()
            },
            Some(i) => {
                proof {
                    lemma_key_index(sv, i as int);
                }
                let e = self.subscribed.remove(i);
                let (k, st) = e;
                self.subscribed.insert(i, (k, SubStatus::Subscribed(h)));
                assert(self.status_v() =~= sv.update(i as int, (p, StatusV::<H, Wt>::Subscribed(hh))));
                match st {
                    SubStatus::Pending(ws) => ws,
                    SubStatus::Subscribed(_) => {
                        let r: Vec<Wt> = Vec::new();
                        assert(r@ =~= Seq::<Wt>::empty());
                        r
                    },
                }
            },
        }
    }

    /// Last phase of a failed subscribe: a pending path is forgotten and
    /// its waiting callers are handed back to be told. Any other status is
    /// left alone.
    pub fn finish_err(&mut self, path: &String) -> (r: Vec<Wt>)
        requires
            old(self).wf(),
        ensures
            final(self).wf(),
            final(self).alive_v() == old(self).alive_v(),
            final(self).dead_v() == old(self).dead_v(),
            is_pending(old(self).status_v(), path@) ==> final(self).status_v() == key_del(
                old(self).status_v(),
                path@,
            ),
            !is_pending(old(self).status_v(), path@) ==> final(self).status_v() == old(
                self,
            ).status_v(),
            r@ == waiters_of(old(self).status_v(), path@),
    {
        let ghost sv = self.status_v();
        let ghost p = path@;
        proof {
            self.lemma_raw();
            lemma_key_del(sv, p);
        }
        match find_key(&self.subscribed, path) {
            None => {
                let r: Vec<Wt> = Vec::new();
                assert(r@ =~= Seq::<Wt>::empty());
                r
            },
            Some(i) => {
                proof {
                    lemma_key_index(sv, i as int);
                }
                if let SubStatus::Subscribed(_) = &self.subscribed[i].1 {
                    let r: Vec<Wt> = Vec::new();
                    assert(r@ =~= Seq::<Wt>::empty());
                    return r;
                }
                let e = self.subscribed.remove(i);
                assert(self.status_v() =~= sv.remove(i as int));
                match e.1 {
                    SubStatus::Pending(ws) => ws,
                    SubStatus::Subscribed(_) => Vec::new(),
                }
            },
        }
    }

    /// The plain half of the unsubscribe routine: a subscribed path whose
    /// handle is gone, or is the very subscription that ended
    /// (`handle_done`), is forgotten. A pending path, or one subscribed
    /// through another handle, is left alone. Returns whether it was
    /// forgotten.
    pub fn unsubscribe_plain(&mut self, path: &String, handle_done: bool) -> (r: bool)
        requires
            old(self).wf(),
        ensures
            final(self).wf(),
            final(self).alive_v() == old(self).alive_v(),
            final(self).dead_v() == old(self).dead_v(),
            r == (is_subscribed(old(self).status_v(), path@) && handle_done),
            r ==> final(self).status_v() == key_del(old(self).status_v(), path@),
            !r ==> final(self).status_v() == old(self).status_v(),
    {
        let ghost sv = self.status_v();
        proof {
            self.lemma_raw();
            lemma_key_del(sv, path@);
        }
        match find_key(&self.subscribed, path) {
            None => false,
            Some(i) => {
                proof {
                    lemma_key_index(sv, i as int);
                }
                if let SubStatus::Pending(_) = &self.subscribed[i].1 {
                    return false;
                }
                if !handle_done {
                    return false;
                }
                let _ = self.subscribed.remove(i);
                assert(self.status_v() =~= sv.remove(i as int));
                true
            },
        }
    }

    /// The durable subscription to `path`, dead or alive, looked up in the
    /// dead table first.
    pub fn durable_lookup(&self, path: &String) -> (r: Option<&D>)
        requires
            self.wf(),
        ensures
            key_has(self.dead_v(), path@) ==> r == Some(
                &self.dead_v()[key_index(self.dead_v(), path@)].1,
            ),
            !key_has(self.dead_v(), path@) && key_has(self.alive_v(), path@) ==> r == Some(
                &self.alive_v()[key_index(self.alive_v(), path@)].1,
            ),
            !key_has(self.dead_v(), path@) && !key_has(self.alive_v(), path@) ==> r is None,
    {
        match find_key(&self.durable_dead, path) {
            Some(i) => Some(&self.durable_dead[i].1),
            None => match find_key(&self.durable_alive, path) {
                Some(i) => Some(&self.durable_alive[i].1),
                None => None,
            },
        }
    }

    /// Register `d` as the dead durable subscription to `path`, to be
    /// resubscribed. Any alive entry for the path is dropped, so the path
    /// stays in one table.
    pub fn insert_dead(&mut self, path: String, d: D)
        requires
            old(self).wf(),
        ensures
            final(self).wf(),
            final(self).status_v() == old(self).status_v(),
            final(self).dead_v() == key_set(old(self).dead_v(), path@, d),
            final(self).alive_v() == key_del(old(self).alive_v(), path@),
    {
        let ghost p = path@;
        let ghost a0 = self.alive_v();
        let ghost d0 = self.dead_v();
        proof {
            lemma_key_del(a0, p);
            lemma_key_set(d0, p, d);
        }
        let _ = del_key(&mut self.durable_alive, &path);
        set_key(&mut self.durable_dead, path, d);
        assert forall|q: Seq<char>| !(#[trigger] key_has(self.alive_v(), q) && key_has(self.dead_v(), q)) by {
            if q != p {
                assert(key_has(self.alive_v(), q) == key_has(a0, q));
                assert(key_has(self.dead_v(), q) == key_has(d0, q));
            }
        }
    }

    /// The alive half of the unsubscribe routine: the alive durable
    /// subscription to `path`, taken out of the alive table.
    pub fn take_alive(&mut self, path: &String) -> (r: Option<D>)
        requires
            old(self).wf(),
        ensures
            final(self).wf(),
            final(self).status_v() == old(self).status_v(),
            final(self).dead_v() == old(self).dead_v(),
            final(self).alive_v() == key_del(old(self).alive_v(), path@),
            r is None <==> !key_has(old(self).alive_v(), path@),
            r matches Some(d) ==> d == old(self).alive_v()[key_index(old(self).alive_v(), path@)].1,
    {
        let ghost a0 = self.alive_v();
        proof {
            lemma_key_del(a0, path@);
        }
        let r = del_key(&mut self.durable_alive, path);
        assert forall|q: Seq<char>| !(#[trigger] key_has(self.alive_v(), q) && key_has(self.dead_v(), q)) by {
            if q != path@ {
                assert(key_has(self.alive_v(), q) == key_has(a0, q));
            }
        }
        r
    }

    /// Drop the dead durable subscription to `path`, once nobody holds it.
    pub fn remove_dead(&mut self, path: &String) -> (r: Option<D>)
        requires
            old(self).wf(),
        ensures
            final(self).wf(),
            final(self).status_v() == old(self).status_v(),
            final(self).alive_v() == old(self).alive_v(),
            final(self).dead_v() == key_del(old(self).dead_v(), path@),
            r is None <==> !key_has(old(self).dead_v(), path@),
    {
        let ghost d0 = self.dead_v();
        proof {
            lemma_key_del(d0, path@);
        }
        let r = del_key(&mut self.durable_dead, path);
        assert forall|q: Seq<char>| !(#[trigger] key_has(self.alive_v(), q) && key_has(self.dead_v(), q)) by {
            if q != path@ {
                assert(key_has(self.dead_v(), q) == key_has(d0, q));
            }
        }
        r
    }

    /// A resubscription of `path` succeeded: its durable subscription moves
    /// from the dead table to the alive one. Returns whether it was dead.
    pub fn revive(&mut self, path: &String) -> (r: bool)
        requires
            old(self).wf(),
        ensures
            final(self).wf(),
            final(self).status_v() == old(self).status_v(),
            r == key_has(old(self).dead_v(), path@),
            r ==> final(self).dead_v() == key_del(old(self).dead_v(), path@) && final(self).alive_v()
                == key_set(
                old(self).alive_v(),
                path@,
                old(self).dead_v()[key_index(old(self).dead_v(), path@)].1,
            ),
            !r ==> final(self).dead_v() == old(self).dead_v() && final(self).alive_v() == old(
                self,
            ).alive_v(),
    {
        let ghost a0 = self.alive_v();
        let ghost d0 = self.dead_v();
        let ghost p = path@;
        proof {
            lemma_key_del(d0, p);
        }
        match del_key(&mut self.durable_dead, path) {
            Some(d) => {
                proof {
                    lemma_key_set(a0, p, d);
                }
                set_key(&mut self.durable_alive, path.clone(), d);
                assert forall|q: Seq<char>| !(#[trigger] key_has(self.alive_v(), q) && key_has(self.dead_v(), q)) by {
                    if q != p {
                        assert(key_has(self.alive_v(), q) == key_has(a0, q));
                        assert(key_has(self.dead_v(), q) == key_has(d0, q));
                    }
                }
                true
            },
            None => false,
        }
    }

    /// Number of dead durable subscriptions.
    pub fn dead_count(&self) -> (r: usize)
        ensures
            r == self.dead_v().len(),
    {
        self.durable_dead.len()
    }

    /// The dead durable subscription at position `i`.
    pub fn dead_entry(&self, i: usize) -> (r: (&String, &D))
        requires
            i < self.dead_v().len(),
        ensures
            r.0@ == self.dead_v()[i as int].0,
            *r.1 == self.dead_v()[i as int].1,
    {
        (&self.durable_dead[i].0, &self.durable_dead[i].1)
    }
}


/// Each path has at most one status entry, and a durable path is either
/// alive or dead, never both: every operation of the registry keeps this.
pub proof fn lemma_registry_tables_exclusive<H, Wt, D>(r: &Registry<H, Wt, D>, p: Seq<char>)
    requires
        r.wf(),
    ensures
        !(key_has(r.alive_v(), p) && key_has(r.dead_v(), p)),
        forall|i: int, j: int|
            0 <= i < r.status_v().len() && 0 <= j < r.status_v().len() && #[trigger] r.status_v()[i].0
                == p && #[trigger] r.status_v()[j].0 == p ==> i == j,
{
    assert(!(key_has(r.alive_v(), p) && key_has(r.dead_v(), p)));
}

/// The first phase of a subscribe run for a sequence of calls `(path,
/// live, waiter)` in turn: each call's decision, and the table after all.
pub open spec fn dedup_run<H, Wt>(s: Seq<(Seq<char>, StatusV<H, Wt>)>, calls: Seq<(Seq<char>, bool, Wt)>) -> (
    Seq<DedupAction>,
    Seq<(Seq<char>, StatusV<H, Wt>)>,
)
    decreases calls.len(),
{
    if calls.len() == 0 {
        (Seq::empty(), s)
    } else {
        let prev = dedup_run(s, calls.drop_last());
        let c = calls.last();
        let step = dedup_spec(prev.1, c.0, c.1, c.2);
        (prev.0.push(step.0), step.1)
    }
}

proof fn lemma_key_set_other<T>(s: Seq<(Seq<char>, T)>, k: Seq<char>, x: T, q: Seq<char>)
    requires
        keys_distinct(s),
        q != k,
        key_has(s, q),
    ensures
        key_has(key_set(s, k, x), q),
        key_set(s, k, x)[key_index(key_set(s, k, x), q)].1 == s[key_index(s, q)].1,
{
    let a = key_index(s, q);
    let t = key_set(s, k, x);
    lemma_key_set(s, k, x);
    assert(t[a] == s[a]);
    lemma_key_index(t, a);
}

proof fn lemma_dedup_step<H, Wt>(t: Seq<(Seq<char>, StatusV<H, Wt>)>, c: Seq<char>, live: bool, w: Wt, p: Seq<char>)
    requires
        keys_distinct(t),
    ensures
        keys_distinct(dedup_spec(t, c, live, w).1),
        dedup_spec(t, c, live, w).0 == DedupAction::Resolve ==> is_pending(dedup_spec(t, c, live, w).1, c),
        is_pending(t, p) ==> is_pending(dedup_spec(t, c, live, w).1, p),
        is_pending(t, c) ==> dedup_spec(t, c, live, w).0 == DedupAction::WaitOther,
{
    let (a, t2) = dedup_spec(t, c, live, w);
    if key_has(t, c) {
        let k = key_index(t, c);
        lemma_key_set(t, c, t2[k].1);
        assert(t2 == key_set(t, c, t2[k].1)) by {
            if a == DedupAction::Existing {
                assert(t.update(k, (c, t[k].1)) =~= t);
            }
        }
        if is_pending(t, p) && p != c {
            lemma_key_set_other(t, c, t2[k].1, p);
        }
    } else {
        lemma_key_set(t, c, StatusV::<H, Wt>::Pending(Seq::empty()));
        assert(t2 == key_set(t, c, StatusV::<H, Wt>::Pending(Seq::empty())));
        if is_pending(t, p) && p != c {
            lemma_key_set_other(t, c, StatusV::<H, Wt>::Pending(Seq::empty()), p);
        }
    }
}

proof fn lemma_dedup_run_prefix<H, Wt>(s: Seq<(Seq<char>, StatusV<H, Wt>)>, calls: Seq<(Seq<char>, bool, Wt)>, n: int)
    requires
        0 <= n <= calls.len(),
    ensures
        dedup_run(s, calls).0.len() == calls.len(),
        forall|k: int| 0 <= k < n ==> #[trigger] dedup_run(s, calls).0[k] == dedup_run(s, calls.take(n)).0[k],
    decreases calls.len(),
{
    if calls.len() > 0 {
        if n == calls.len() {
            assert(calls.take(n) =~= calls);
            lemma_dedup_run_prefix(s, calls.drop_last(), 0);
        } else {
            lemma_dedup_run_prefix(s, calls.drop_last(), n);
            assert(calls.drop_last().take(n) =~= calls.take(n));
        }
    }
}

proof fn lemma_dedup_run_distinct_pending<H, Wt>(
    s: Seq<(Seq<char>, StatusV<H, Wt>)>,
    calls: Seq<(Seq<char>, bool, Wt)>,
    i: int,
)
    requires
        keys_distinct(s),
        0 <= i < calls.len(),
        dedup_run(s, calls.take(i + 1)).0[i] == DedupAction::Resolve,
    ensures
        keys_distinct(dedup_run(s, calls).1),
        is_pending(dedup_run(s, calls).1, calls[i].0),
        forall|j: int|
            i < j < calls.len() && #[trigger] calls[j].0 == calls[i].0 ==> dedup_run(s, calls.take(
                j + 1,
            )).0[j] == DedupAction::WaitOther,
    decreases calls.len(),
{
    let p = calls[i].0;
    lemma_dedup_run_keys(s, calls.drop_last());
    lemma_dedup_run_prefix(s, calls.drop_last(), 0);
    let prev = dedup_run(s, calls.drop_last());
    let c = calls.last();
    let step = dedup_spec(prev.1, c.0, c.1, c.2);
    assert(dedup_run(s, calls) == (prev.0.push(step.0), step.1));
    lemma_dedup_step(prev.1, c.0, c.1, c.2, p);
    if calls.len() == i + 1 {
        assert(calls.take(i + 1) =~= calls);
        assert(prev.0.push(step.0)[i] == step.0);
        assert(c == calls[i]);
    } else {
        assert(calls.drop_last().take(i + 1) =~= calls.take(i + 1));
        assert(calls.drop_last()[i] == calls[i]);
        lemma_dedup_run_distinct_pending(s, calls.drop_last(), i);
        assert forall|j: int| i < j < calls.len() && #[trigger] calls[j].0 == calls[i].0 implies dedup_run(
            s,
            calls.take(j + 1),
        ).0[j] == DedupAction::WaitOther by {
            if j < calls.len() - 1 {
                assert(calls.drop_last()[j] == calls[j]);
                assert(calls.drop_last().take(j + 1) =~= calls.take(j + 1));
            } else {
                assert(calls.take(j + 1) =~= calls);
                assert(c.0 == p);
                assert(prev.0.push(step.0)[j] == step.0);
            }
        }
    }
}

proof fn lemma_dedup_run_keys<H, Wt>(s: Seq<(Seq<char>, StatusV<H, Wt>)>, calls: Seq<(Seq<char>, bool, Wt)>)
    requires
        keys_distinct(s),
    ensures
        keys_distinct(dedup_run(s, calls).1),
    decreases calls.len(),
{
    if calls.len() > 0 {
        lemma_dedup_run_keys(s, calls.drop_last());
        let c = calls.last();
        lemma_dedup_step(dedup_run(s, calls.drop_last()).1, c.0, c.1, c.2, c.0);
    }
}

/// At most one subscription per path is in flight: in any run of
/// first-phase calls, once a caller is told to resolve a path, every later
/// caller for that path waits on it, whatever it finds about handle
/// liveness and whatever other paths are asked for in between.
pub proof fn lemma_dedup_run_single_flight<H, Wt>(
    s: Seq<(Seq<char>, StatusV<H, Wt>)>,
    calls: Seq<(Seq<char>, bool, Wt)>,
    i: int,
    j: int,
)
    requires
        keys_distinct(s),
        0 <= i < j < calls.len(),
        calls[i].0 == calls[j].0,
        dedup_run(s, calls).0[i] == DedupAction::Resolve,
    ensures
        dedup_run(s, calls).0[j] == DedupAction::WaitOther,
{
    lemma_dedup_run_prefix(s, calls, i + 1);
    lemma_dedup_run_prefix(s, calls, j + 1);
    lemma_dedup_run_distinct_pending(s, calls, i);
}

/// While a subscription to a path is in flight, every other caller for that
/// path waits on it: of two callers in a row, at most one resolves and
/// subscribes, whatever they find about handle liveness.
pub proof fn lemma_dedup_single_flight<H, Wt>(
    s: Seq<(Seq<char>, StatusV<H, Wt>)>,
    p: Seq<char>,
    live1: bool,
    w1: Wt,
    live2: bool,
    w2: Wt,
)
    requires
        keys_distinct(s),
    ensures
        ({
            let (a1, s1) = dedup_spec(s, p, live1, w1);
            let (a2, s2) = dedup_spec(s1, p, live2, w2);
            &&& a1 == DedupAction::Resolve ==> a2 == DedupAction::WaitOther
            &&& a1 == DedupAction::Resolve ==> waiters_of(s2, p) == seq![w2]
            &&& a1 == DedupAction::WaitOther ==> a2 == DedupAction::WaitOther
        }),
{
    let (a1, s1) = dedup_spec(s, p, live1, w1);
    if key_has(s, p) {
        let k = key_index(s, p);
        lemma_key_set(s, p, s1[k].1);
        assert(s1 == key_set(s, p, s1[k].1));
    } else {
        lemma_key_set(s, p, StatusV::<H, Wt>::Pending(Seq::empty()));
        assert(s1 == key_set(s, p, StatusV::<H, Wt>::Pending(Seq::empty())));
    }
    if a1 == DedupAction::Resolve || a1 == DedupAction::WaitOther {
        let k1 = key_index(s1, p);
        let (a2, s2) = dedup_spec(s1, p, live2, w2);
        assert(s1[k1].1 is Pending);
        if a1 == DedupAction::Resolve {
            assert(s1[k1].1 == StatusV::<H, Wt>::Pending(Seq::empty()));
            lemma_key_set(s1, p, s2[k1].1);
            assert(s2 == key_set(s1, p, s2[k1].1));
            assert(seq![w2] =~= Seq::<Wt>::empty().push(w2));
        }
    }
}

/// Whether a path's subscribed handle should be forgotten when subscription
/// `id` ends on a connection: the handle no longer upgrades (`None`), or it
/// upgrades to that very subscription, which has publisher id `id` (first)
/// on that same connection (second).
pub fn handle_done(live: Option<(u64, bool)>, id: u64) -> (r: bool)
    ensures
        r == match live {
            None => true,
            Some((i, same_conn)) => i == id && same_conn,
        },
{
    match live {
        None => true,
        Some((i, same_conn)) => i == id && same_conn,
    }
}

/// Relies on rand's `thread_rng` and `Rng::gen_range`, which draws from the
/// half-open range `0..n` and panics only when it is empty.
#[verifier::external_body]
fn random_index(n: usize) -> (r: usize)
    requires
        n > 0,
    ensures
        r < n,
{
    rand::Rng::gen_range(&mut rand::thread_rng(), 0..n)
}

/// Which of the publishers a path resolved to gets the subscription:
/// uniformly at random, the only one when there is one, and none (the path
/// is unknown) when there are none.
pub fn pick_address<A>(addrs: &Vec<A>) -> (r: Result<usize, SubError>)
    ensures
        addrs@.len() == 0 <==> r == Err::<usize, SubError>(SubError::PathNotFound),
        addrs@.len() > 0 <==> r is Ok,
        addrs@.len() == 1 ==> r == Ok::<usize, SubError>(0),
        r matches Ok(i) ==> i < addrs@.len(),
{
    let n = addrs.len();
    if n == 0 {
        Err(SubError::PathNotFound)
    } else if n == 1 {
        Ok(0)
    } else {
        Ok(random_index(n))
    }
}

} // verus!
