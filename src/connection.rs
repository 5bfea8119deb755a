//! The per-publisher connection actor as a state machine. It owns the
//! pending subscribe requests and the live subscriptions of one publisher
//! connection; the task that drives it performs the effects it returns
//! (writes to the publisher, batches to user channels, replies to waiters).

use vstd::prelude::*;
use crate::value::{ChanId, FromPublisher, SubError, SubId, ToPublisher, Value, ValueV, copy_bytes};

verus! {

/// Consecutive idle ticks after which a connection with nothing to do
/// closes.
pub const IDLE_TICKS: u64 = 2;

/// Bookkeeping for one live subscription on this connection.
pub struct Sub {
    /// The publisher's id for it.
    pub id: u64,
    pub path: String,
    /// The most recent value seen.
    pub last: Value,
    /// The streams attached to it, each with the handle identity it reports.
    pub streams: Vec<(SubId, ChanId)>,
}

pub struct SubV {
    pub id: u64,
    pub path: Seq<char>,
    pub last: ValueV,
    pub streams: Seq<(SubId, ChanId)>,
}

impl View for Sub {
    type V = SubV;

    open spec fn view(&self) -> SubV {
        SubV { id: self.id, path: self.path@, last: self.last@, streams: self.streams@ }
    }
}

/// A subscribe request waiting for the publisher's answer. `finished` is
/// whatever completes the caller that asked for it.
pub struct SubscribeRequest<W> {
    pub path: String,
    pub token: Vec<u8>,
    pub resolver: u64,
    /// Absolute time after which the request fails as timed out.
    pub deadline: Option<u64>,
    pub finished: W,
}

pub struct RequestV<W> {
    pub path: Seq<char>,
    pub token: Seq<u8>,
    pub resolver: u64,
    pub deadline: Option<u64>,
    pub finished: W,
}

impl<W> View for SubscribeRequest<W> {
    type V = RequestV<W>;

    open spec fn view(&self) -> RequestV<W> {
        RequestV {
            path: self.path@,
            token: self.token@,
            resolver: self.resolver,
            deadline: self.deadline,
            finished: self.finished,
        }
    }
}

/// Something the driving task must do, in the order given.
pub enum Effect<W> {
    /// Queue a message to the publisher.
    Send(ToPublisher),
    /// Send one batch to the user channel with this identity.
    Deliver(ChanId, Vec<(SubId, Value)>),
    /// Complete a waiter: the publisher's id on success.
    Finish(W, Result<u64, SubError>),
    /// The subscription to this path with this id is gone; run the
    /// registry's unsubscribe routine for it.
    Unsubscribed(String, u64),
}

pub enum ToV {
    Subscribe(Seq<char>, u64, Seq<u8>),
    Unsubscribe(u64),
}

pub enum EffectV<W> {
    Send(ToV),
    Deliver(ChanId, Seq<(SubId, ValueV)>),
    Finish(W, Result<u64, SubError>),
    Unsubscribed(Seq<char>, u64),
}

impl View for ToPublisher {
    type V = ToV;

    open spec fn view(&self) -> ToV {
        match self {
            ToPublisher::Subscribe { path, resolver, token } => ToV::Subscribe(
                path@,
                *resolver,
                token@,
            ),
            ToPublisher::Unsubscribe(id) => ToV::Unsubscribe(*id),
        }
    }
}

pub open spec fn pairs_view(s: Seq<(SubId, Value)>) -> Seq<(SubId, ValueV)> {
    s.map_values(|p: (SubId, Value)| (p.0, p.1@))
}

impl<W> View for Effect<W> {
    type V = EffectV<W>;

    open spec fn view(&self) -> EffectV<W> {
        match self {
            Effect::Send(m) => EffectV::Send(m@),
            Effect::Deliver(c, b) => EffectV::Deliver(*c, pairs_view(b@)),
            Effect::Finish(w, r) => EffectV::Finish(*w, *r),
            Effect::Unsubscribed(p, id) => EffectV::Unsubscribed(p@, *id),
        }
    }
}

pub open spec fn effects_view<W>(s: Seq<Effect<W>>) -> Seq<EffectV<W>> {
    s.map_values(|e: Effect<W>| e@)
}

pub open spec fn has_id(subs: Seq<SubV>, id: u64) -> bool {
    exists|i: int| 0 <= i < subs.len() && #[trigger] subs[i].id == id
}

/// Where the subscription with publisher id `id` sits.
pub open spec fn id_index(subs: Seq<SubV>, id: u64) -> int {
    choose|i: int| 0 <= i < subs.len() && #[trigger] subs[i].id == id
}

pub open spec fn has_path<W>(pending: Seq<RequestV<W>>, path: Seq<char>) -> bool {
    exists|i: int| 0 <= i < pending.len() && #[trigger] pending[i].path == path
}

/// Where the pending request for `path` sits.
pub open spec fn path_index<W>(pending: Seq<RequestV<W>>, path: Seq<char>) -> int {
    choose|i: int| 0 <= i < pending.len() && #[trigger] pending[i].path == path
}

pub open spec fn ids_distinct(subs: Seq<SubV>) -> bool {
    forall|i: int, j: int|
        0 <= i < subs.len() && 0 <= j < subs.len() && i != j ==> #[trigger] subs[i].id
            != #[trigger] subs[j].id
}

pub open spec fn paths_distinct<W>(pending: Seq<RequestV<W>>) -> bool {
    forall|i: int, j: int|
        0 <= i < pending.len() && 0 <= j < pending.len() && i != j ==> #[trigger] pending[i].path
            != #[trigger] pending[j].path
}

/// What one update sends where: for each stream of its subscription, the
/// destination and the pair delivered there.
pub open spec fn update_row(subs: Seq<SubV>, m: FromPublisher) -> Seq<(ChanId, (SubId, ValueV))> {
    match m {
        FromPublisher::Update(i, v) => if has_id(subs, i) {
            subs[id_index(subs, i)].streams.map_values(|s: (SubId, ChanId)| (s.1, (s.0, v@)))
        } else {
            Seq::empty()
        },
        _ => Seq::empty(),
    }
}

/// Every delivery a batch of updates makes, in wire order.
pub open spec fn expand(subs: Seq<SubV>, ms: Seq<FromPublisher>) -> Seq<(ChanId, (SubId, ValueV))>
    decreases ms.len(),
{
    if ms.len() == 0 {
        Seq::empty()
    } else {
        expand(subs, ms.drop_last()) + update_row(subs, ms.last())
    }
}

/// The deliveries among `e` that go to channel `c`, in order.
pub open spec fn for_chan(e: Seq<(ChanId, (SubId, ValueV))>, c: ChanId) -> Seq<(SubId, ValueV)>
    decreases e.len(),
{
    if e.len() == 0 {
        Seq::empty()
    } else if e.last().0 == c {
        for_chan(e.drop_last(), c).push(e.last().1)
    } else {
        for_chan(e.drop_last(), c)
    }
}

/// The subscriptions after each update of `ms` has become its
/// subscription's last value.
pub open spec fn apply_lasts(subs: Seq<SubV>, ms: Seq<FromPublisher>) -> Seq<SubV>
    decreases ms.len(),
{
    if ms.len() == 0 {
        subs
    } else {
        let s = apply_lasts(subs, ms.drop_last());
        match ms.last() {
            FromPublisher::Update(i, v) => if has_id(s, i) {
                let k = id_index(s, i);
                s.update(k, SubV { last: v@, ..s[k] })
            } else {
                s
            },
            _ => s,
        }
    }
}

proof fn lemma_for_chan_push(e: Seq<(ChanId, (SubId, ValueV))>, x: (ChanId, (SubId, ValueV)), c: ChanId)
    ensures
        for_chan(e.push(x), c) == if x.0 == c {
            for_chan(e, c).push(x.1)
        } else {
            for_chan(e, c)
        },
{
    assert(e.push(x).drop_last() =~= e);
}

proof fn lemma_id_index(subs: Seq<SubV>, k: int)
    requires
        ids_distinct(subs),
        0 <= k < subs.len(),
    ensures
        has_id(subs, subs[k].id),
        id_index(subs, subs[k].id) == k,
{
    assert(subs[k].id == subs[k].id);
}

proof fn lemma_path_index<W>(pending: Seq<RequestV<W>>, k: int)
    requires
        paths_distinct(pending),
        0 <= k < pending.len(),
    ensures
        has_path(pending, pending[k].path),
        path_index(pending, pending[k].path) == k,
{
    assert(pending[k].path == pending[k].path);
}

/// `out` holds, for each destination that `e` reaches, exactly one batch:
/// the deliveries of `e` to it, in order.
pub open spec fn batches_match(out: Seq<(ChanId, Vec<(SubId, Value)>)>, e: Seq<(ChanId, (SubId, ValueV))>) -> bool {
    &&& forall|j: int|
        0 <= j < out.len() ==> pairs_view(#[trigger] out[j].1@) == for_chan(e, out[j].0)
            && out[j].1@.len() > 0
    &&& forall|i: int, j: int|
        0 <= i < out.len() && 0 <= j < out.len() && i != j ==> #[trigger] out[i].0
            != #[trigger] out[j].0
    &&& forall|c: ChanId| #[trigger]
        for_chan(e, c).len() > 0 ==> exists|j: int| 0 <= j < out.len() && out[j].0 == c
}

fn add_delivery(
    out: &mut Vec<(ChanId, Vec<(SubId, Value)>)>,
    c: ChanId,
    sid: SubId,
    v: Value,
    Ghost(e): Ghost<Seq<(ChanId, (SubId, ValueV))>>,
)
    requires
        batches_match(old(out)@, e),
    ensures
        batches_match(final(out)@, e.push((c, (sid, v@)))),
{
    let ghost x = (c, (sid, v@));
    let ghost e2 = e.push(x);
    let ghost vv = v;
    let mut q: usize = 0;
    while q < out.len()
        invariant
            q <= out@.len(),
            out@ == old(out)@,
            batches_match(out@, e),
            vv == v,
            x == (c, (sid, v@)),
            e2 == e.push(x),
            forall|j: int| 0 <= j < q ==> (#[trigger] out@[j]).0 != c,
        decreases out.len() - q,
    {
        if out[q].0 == c {
            let ghost o0 = out@;
            let ghost b0 = out@[q as int].1@;
            let pair = out.remove(q);
            let cq = pair.0;
            let mut bq = pair.1;
            bq.push((sid, v));
            out.insert(q, (cq, bq));
            proof {
                assert(out@[q as int].1@ == b0.push((sid, vv)));
                assert(pairs_view(out@[q as int].1@) =~= pairs_view(b0).push(x.1));
                lemma_for_chan_push(e, x, c);
                assert forall|j: int| 0 <= j < out@.len() implies pairs_view(#[trigger] out@[j].1@)
                    == for_chan(e2, out@[j].0) && out@[j].1@.len() > 0 by {
                    lemma_for_chan_push(e, x, out@[j].0);
                }
                assert forall|j: int| 0 <= j < out@.len() && j != q implies out@[j] == o0[j] by {}
                assert forall|c2: ChanId| #[trigger] for_chan(e2, c2).len() > 0 implies exists|j: int|
                    0 <= j < out@.len() && out@[j].0 == c2 by {
                    if c2 != c {
                        lemma_for_chan_push(e, x, c2);
                        let j = choose|j: int| 0 <= j < o0.len() && o0[j].0 == c2;
                        assert(out@[j].0 == c2);
                    } else {
                        assert(out@[q as int].0 == c2);
                    }
                }
            }
            return;
        }
        q = q + 1;
    }
    let ghost o0 = out@;
    let mut b: Vec<(SubId, Value)> = Vec::new();
    b.push((sid, v));
    proof {
        assert(for_chan(e, c).len() == 0) by {
            if for_chan(e, c).len() > 0 {
                let j = choose|j: int| 0 <= j < o0.len() && o0[j].0 == c;
                assert(o0[j].0 != c);
            }
        }
        assert(for_chan(e, c) =~= Seq::<(SubId, ValueV)>::empty());
        assert(pairs_view(b@) =~= seq![x.1]);
    }
    out.push((c, b));
    proof {
        let n = o0.len() as int;
        assert(out@[n].0 == c);
        assert forall|j: int| 0 <= j < out@.len() implies pairs_view(#[trigger] out@[j].1@)
            == for_chan(e2, out@[j].0) && out@[j].1@.len() > 0 by {
            lemma_for_chan_push(e, x, out@[j].0);
        }
        assert forall|j: int| 0 <= j < n implies out@[j] == o0[j] by {}
        assert forall|c2: ChanId| #[trigger] for_chan(e2, c2).len() > 0 implies exists|j: int|
            0 <= j < out@.len() && out@[j].0 == c2 by {
            lemma_for_chan_push(e, x, c2);
            if c2 != c {
                let j = choose|j: int| 0 <= j < o0.len() && o0[j].0 == c2;
                assert(out@[j].0 == c2);
            } else {
                assert(out@[n].0 == c2);
            }
        }
    }
}

/// One reply from the publisher, processed on its own: the pending
/// requests and subscriptions after it, and the effects it causes.
pub open spec fn step_spec<W>(pending: Seq<RequestV<W>>, subs: Seq<SubV>, m: FromPublisher) -> (
    Seq<RequestV<W>>,
    Seq<SubV>,
    Seq<EffectV<W>>,
) {
    match m {
        FromPublisher::Update(i, v) => if has_id(subs, i) {
            let k = id_index(subs, i);
            (
                pending,
                subs.update(k, SubV { last: v@, ..subs[k] }),
                subs[k].streams.map_values(
                    |t: (SubId, ChanId)| EffectV::Deliver(t.1, seq![(t.0, v@)]),
                ),
            )
        } else {
            (pending, subs, seq![EffectV::Send(ToV::Unsubscribe(i))])
        },
        FromPublisher::Heartbeat => (pending, subs, Seq::empty()),
        FromPublisher::NoSuchValue(p) => if has_path(pending, p@) {
            let k = path_index(pending, p@);
            (
                pending.remove(k),
                subs,
                seq![EffectV::Finish(pending[k].finished, Err(SubError::PathNotFound))],
            )
        } else {
            (pending, subs, Seq::empty())
        },
        FromPublisher::Denied(p) => if has_path(pending, p@) {
            let k = path_index(pending, p@);
            (
                pending.remove(k),
                subs,
                seq![EffectV::Finish(pending[k].finished, Err(SubError::AccessDenied))],
            )
        } else {
            (pending, subs, Seq::empty())
        },
        FromPublisher::Unsubscribed(id) => if has_id(subs, id) {
            let k = id_index(subs, id);
            (pending, subs.remove(k), seq![EffectV::Unsubscribed(subs[k].path, id)])
        } else {
            (pending, subs, Seq::empty())
        },
        FromPublisher::Subscribed(p, id, v) => if has_path(pending, p@) {
            let k = path_index(pending, p@);
            let sv = SubV { id: id, path: pending[k].path, last: v@, streams: Seq::empty() };
            (
                pending.remove(k),
                if has_id(subs, id) {
                    subs.update(id_index(subs, id), sv)
                } else {
                    subs.push(sv)
                },
                seq![EffectV::Finish(pending[k].finished, Ok(id))],
            )
        } else {
            (pending, subs, seq![EffectV::Send(ToV::Unsubscribe(id))])
        },
    }
}

/// A publisher's `Subscribed` answer to a pending request leaves exactly
/// one subscription under the publisher's id, for that path and with no
/// stream yet; the request is no longer pending and its one waiter is
/// told.
pub proof fn lemma_subscribed_reply_one_sub<W>(
    pending: Seq<RequestV<W>>,
    subs: Seq<SubV>,
    p: String,
    id: u64,
    v: Value,
)
    requires
        paths_distinct(pending),
        ids_distinct(subs),
        has_path(pending, p@),
    ensures
        ({
            let r = step_spec(pending, subs, FromPublisher::Subscribed(p, id, v));
            &&& ids_distinct(r.1)
            &&& has_id(r.1, id)
            &&& r.1[id_index(r.1, id)].path == p@
            &&& r.1[id_index(r.1, id)].streams.len() == 0
            &&& !has_path(r.0, p@)
            &&& r.2 == seq![EffectV::Finish(pending[path_index(pending, p@)].finished, Ok::<u64, SubError>(id))]
        }),
{
    let k = path_index(pending, p@);
    let r = step_spec(pending, subs, FromPublisher::Subscribed(p, id, v));
    let sv = SubV { id: id, path: pending[k].path, last: v@, streams: Seq::empty() };
    assert(pending[k].path == p@);
    let q = pending.remove(k);
    assert(r.0 == q);
    assert(!has_path(q, p@)) by {
        if has_path(q, p@) {
            let a = choose|a: int| 0 <= a < q.len() && #[trigger] q[a].path == p@;
            let a0 = if a < k { a } else { a + 1 };
            assert(q[a] == pending[a0]);
        }
    }
    if has_id(subs, id) {
        let a = id_index(subs, id);
        let t = subs.update(a, sv);
        assert(r.1 == t);
        assert forall|x: int, y: int| 0 <= x < t.len() && 0 <= y < t.len() && x != y implies #[trigger] t[x].id
            != #[trigger] t[y].id by {
            assert(t[x].id == subs[x].id && t[y].id == subs[y].id);
        }
        lemma_id_index(t, a);
    } else {
        let t = subs.push(sv);
        assert(r.1 == t);
        assert forall|x: int, y: int| 0 <= x < t.len() && 0 <= y < t.len() && x != y implies #[trigger] t[x].id
            != #[trigger] t[y].id by {
            if x < subs.len() && y < subs.len() {
                assert(t[x] == subs[x] && t[y] == subs[y]);
            } else if x < subs.len() {
                assert(t[x] == subs[x]);
            } else {
                assert(t[y] == subs[y]);
            }
        }
        lemma_id_index(t, subs.len() as int);
    }
}

/// A mixed batch processed one reply at a time, in wire order.
pub open spec fn steps_spec<W>(pending: Seq<RequestV<W>>, subs: Seq<SubV>, ms: Seq<FromPublisher>) -> (
    Seq<RequestV<W>>,
    Seq<SubV>,
    Seq<EffectV<W>>,
)
    decreases ms.len(),
{
    if ms.len() == 0 {
        (pending, subs, Seq::empty())
    } else {
        let r = steps_spec(pending, subs, ms.drop_last());
        let s = step_spec(r.0, r.1, ms.last());
        (s.0, s.1, r.2 + s.2)
    }
}

/// Whether a request's deadline has passed at `now`.
pub open spec fn expired<W>(r: RequestV<W>, now: u64) -> bool {
    r.deadline matches Some(d) && d < now
}

/// The requests of `p` still within their deadline at `now`, in order.
pub open spec fn live_spec<W>(p: Seq<RequestV<W>>, now: u64) -> Seq<RequestV<W>>
    decreases p.len(),
{
    if p.len() == 0 {
        Seq::empty()
    } else if expired(p[0], now) {
        live_spec(p.drop_first(), now)
    } else {
        seq![p[0]] + live_spec(p.drop_first(), now)
    }
}

/// A timed-out completion for each request of `p` past its deadline, in
/// order.
pub open spec fn timeouts_spec<W>(p: Seq<RequestV<W>>, now: u64) -> Seq<EffectV<W>>
    decreases p.len(),
{
    if p.len() == 0 {
        Seq::empty()
    } else if expired(p[0], now) {
        seq![EffectV::Finish(p[0].finished, Err(SubError::TimedOut))] + timeouts_spec(
            p.drop_first(),
            now,
        )
    } else {
        timeouts_spec(p.drop_first(), now)
    }
}

/// The streams of `s` that do not go to channel `c`, in order.
pub open spec fn without_chan(s: Seq<(SubId, ChanId)>, c: ChanId) -> Seq<(SubId, ChanId)>
    decreases s.len(),
{
    if s.len() == 0 {
        Seq::empty()
    } else if s.last().1 == c {
        without_chan(s.drop_last(), c)
    } else {
        without_chan(s.drop_last(), c).push(s.last())
    }
}

proof fn lemma_remove_keeps_paths_distinct<W>(p: Seq<RequestV<W>>, k: int)
    requires
        paths_distinct(p),
        0 <= k < p.len(),
    ensures
        paths_distinct(p.remove(k)),
{
    let q = p.remove(k);
    assert forall|a: int, b: int| 0 <= a < q.len() && 0 <= b < q.len() && a != b implies #[trigger] q[a].path
        != #[trigger] q[b].path by {
        let a0 = if a < k { a } else { a + 1 };
        let b0 = if b < k { b } else { b + 1 };
        assert(q[a] == p[a0]);
        assert(q[b] == p[b0]);
    }
}

proof fn lemma_remove_keeps_ids_distinct(s: Seq<SubV>, k: int)
    requires
        ids_distinct(s),
        0 <= k < s.len(),
    ensures
        ids_distinct(s.remove(k)),
{
    let q = s.remove(k);
    assert forall|a: int, b: int| 0 <= a < q.len() && 0 <= b < q.len() && a != b implies #[trigger] q[a].id
        != #[trigger] q[b].id by {
        let a0 = if a < k { a } else { a + 1 };
        let b0 = if b < k { b } else { b + 1 };
        assert(q[a] == s[a0]);
        assert(q[b] == s[b0]);
    }
}

/// What a liveness tick decided.
pub enum TickOutcome<W> {
    /// Nothing arrived from the publisher for a whole period.
    Hung,
    /// Nothing pending and nothing subscribed for two ticks in a row.
    Idle,
    /// Keep going, after performing these effects.
    Continue(Vec<Effect<W>>),
}

/// What a stream reporting as `sid`, attached to subscription `id`, should
/// receive from a batch: one pair per update of `id`, in wire order.
pub open spec fn stream_feed(ms: Seq<FromPublisher>, id: u64, sid: SubId) -> Seq<(SubId, ValueV)>
    decreases ms.len(),
{
    if ms.len() == 0 {
        Seq::empty()
    } else {
        let rest = stream_feed(ms.drop_last(), id, sid);
        match ms.last() {
            FromPublisher::Update(i, v) => if i == id {
                rest.push((sid, v@))
            } else {
                rest
            },
            _ => rest,
        }
    }
}

proof fn lemma_for_chan_concat(a: Seq<(ChanId, (SubId, ValueV))>, b: Seq<(ChanId, (SubId, ValueV))>, c: ChanId)
    ensures
        for_chan(a + b, c) == for_chan(a, c) + for_chan(b, c),
    decreases b.len(),
{
    if b.len() == 0 {
        assert(a + b =~= a);
        assert(for_chan(a, c) + for_chan(b, c) =~= for_chan(a, c));
    } else {
        lemma_for_chan_concat(a, b.drop_last(), c);
        assert((a + b).drop_last() =~= a + b.drop_last());
        assert((a + b).last() == b.last());
        if b.last().0 == c {
            assert(for_chan(a, c) + for_chan(b, c) =~= (for_chan(a, c) + for_chan(b.drop_last(), c)).push(
                b.last().1,
            ));
        }
    }
}

proof fn lemma_for_chan_row(st: Seq<(SubId, ChanId)>, v: ValueV, c: ChanId)
    ensures
        (forall|j: int| 0 <= j < st.len() ==> (#[trigger] st[j]).1 != c) ==> for_chan(
            st.map_values(|t: (SubId, ChanId)| (t.1, (t.0, v))),
            c,
        ) == Seq::<(SubId, ValueV)>::empty(),
    decreases st.len(),
{
    if st.len() > 0 && forall|j: int| 0 <= j < st.len() ==> (#[trigger] st[j]).1 != c {
        let row = st.map_values(|t: (SubId, ChanId)| (t.1, (t.0, v)));
        assert(row.drop_last() =~= st.drop_last().map_values(|t: (SubId, ChanId)| (t.1, (t.0, v))));
        assert(st.drop_last().len() < st.len());
        assert forall|j: int| 0 <= j < st.drop_last().len() implies (#[trigger] st.drop_last()[j]).1 != c by {
            assert(st.drop_last()[j] == st[j]);
        }
        lemma_for_chan_row(st.drop_last(), v, c);
        assert(st[st.len() - 1].1 != c);
    }
}

/// Round trip of the fast path: a stream that alone feeds channel `c`
/// gets, in the one batch for `c`, every update of its subscription exactly
/// once and in wire order, and nothing else.
pub proof fn lemma_stream_gets_every_update(subs: Seq<SubV>, ms: Seq<FromPublisher>, k: int, c: ChanId)
    requires
        ids_distinct(subs),
        0 <= k < subs.len(),
        subs[k].streams.len() == 1,
        subs[k].streams[0].1 == c,
        forall|a: int, j: int|
            0 <= a < subs.len() && a != k && 0 <= j < subs[a].streams.len() ==> (
            #[trigger] subs[a].streams[j]).1 != c,
    ensures
        for_chan(expand(subs, ms), c) == stream_feed(ms, subs[k].id, subs[k].streams[0].0),
    decreases ms.len(),
{
    let sid = subs[k].streams[0].0;
    if ms.len() == 0 {
        assert(for_chan(Seq::<(ChanId, (SubId, ValueV))>::empty(), c) == Seq::<(SubId, ValueV)>::empty());
    } else {
        lemma_stream_gets_every_update(subs, ms.drop_last(), k, c);
        let e0 = expand(subs, ms.drop_last());
        let row = update_row(subs, ms.last());
        lemma_for_chan_concat(e0, row, c);
        match ms.last() {
            FromPublisher::Update(i, v) => {
                if has_id(subs, i) {
                    let a = id_index(subs, i);
                    let st = subs[a].streams;
                    if a == k {
                        assert(row =~= seq![(c, (sid, v@))]);
                        assert(row.drop_last() =~= Seq::<(ChanId, (SubId, ValueV))>::empty());
                        assert(row.last() == (c, (sid, v@)));
                        assert(for_chan(row.drop_last(), c) == Seq::<(SubId, ValueV)>::empty());
                        assert(for_chan(row, c) == for_chan(row.drop_last(), c).push((sid, v@)));
                        assert(for_chan(row, c) =~= seq![(sid, v@)]);
                        assert(i == subs[k].id);
                    } else {
                        assert forall|j: int| 0 <= j < st.len() implies (#[trigger] st[j]).1 != c by {
                            assert(subs[a].streams[j] == st[j]);
                        }
                        lemma_for_chan_row(st, v@, c);
                        assert(i != subs[k].id);
                    }
                } else {
                    assert(row =~= Seq::<(ChanId, (SubId, ValueV))>::empty());
                    assert(subs[k].id != i);
                }
            },
            _ => {
                assert(row =~= Seq::<(ChanId, (SubId, ValueV))>::empty());
            },
        }
        assert(for_chan(e0 + row, c) =~= for_chan(e0, c) + for_chan(row, c));
        assert(for_chan(row, c) == Seq::<(SubId, ValueV)>::empty() ==> for_chan(e0, c) + for_chan(row, c) =~= for_chan(e0, c));
    }
}

/// For subscriptions with one stream each: every update of a known
/// subscription, as the pair its stream receives, in wire order.
pub open spec fn single_stream_feed(subs: Seq<SubV>, ms: Seq<FromPublisher>) -> Seq<(SubId, ValueV)>
    decreases ms.len(),
{
    if ms.len() == 0 {
        Seq::empty()
    } else {
        let rest = single_stream_feed(subs, ms.drop_last());
        match ms.last() {
            FromPublisher::Update(i, v) => if has_id(subs, i) {
                rest.push((subs[id_index(subs, i)].streams[0].0, v@))
            } else {
                rest
            },
            _ => rest,
        }
    }
}

proof fn lemma_shared_feed(subs: Seq<SubV>, ms: Seq<FromPublisher>, c: ChanId, d: ChanId)
    requires
        forall|a: int|
            0 <= a < subs.len() ==> (#[trigger] subs[a]).streams.len() == 1 && subs[a].streams[0].1
                == c,
    ensures
        d == c ==> for_chan(expand(subs, ms), d) == single_stream_feed(subs, ms),
        d != c ==> for_chan(expand(subs, ms), d) == Seq::<(SubId, ValueV)>::empty(),
    decreases ms.len(),
{
    if ms.len() == 0 {
        assert(for_chan(Seq::<(ChanId, (SubId, ValueV))>::empty(), d) == Seq::<(SubId, ValueV)>::empty());
    } else {
        lemma_shared_feed(subs, ms.drop_last(), c, d);
        let e0 = expand(subs, ms.drop_last());
        let row = update_row(subs, ms.last());
        lemma_for_chan_concat(e0, row, d);
        match ms.last() {
            FromPublisher::Update(i, v) => {
                if has_id(subs, i) {
                    let a = id_index(subs, i);
                    let sid = subs[a].streams[0].0;
                    assert(subs[a].streams.len() == 1 && subs[a].streams[0].1 == c);
                    assert(row =~= seq![(c, (sid, v@))]);
                    assert(row.drop_last() =~= Seq::<(ChanId, (SubId, ValueV))>::empty());
                    assert(row.last() == (c, (sid, v@)));
                    assert(for_chan(row.drop_last(), d) == Seq::<(SubId, ValueV)>::empty());
                    if d == c {
                        assert(for_chan(row, d) =~= seq![(sid, v@)]);
                        assert(for_chan(e0, d) + seq![(sid, v@)] =~= for_chan(e0, d).push((sid, v@)));
                    } else {
                        assert(for_chan(row, d) =~= Seq::<(SubId, ValueV)>::empty());
                        assert(for_chan(e0, d) + for_chan(row, d) =~= for_chan(e0, d));
                    }
                } else {
                    assert(row =~= Seq::<(ChanId, (SubId, ValueV))>::empty());
                    assert(for_chan(e0, d) + for_chan(row, d) =~= for_chan(e0, d));
                }
            },
            _ => {
                assert(row =~= Seq::<(ChanId, (SubId, ValueV))>::empty());
                assert(for_chan(e0, d) + for_chan(row, d) =~= for_chan(e0, d));
            },
        }
    }
}

/// Batch fan-out: when every subscription has one stream and all of them
/// share channel `c`, the fast path's output is exactly one batch, for `c`,
/// holding one pair per update of a known subscription, in wire order.
pub proof fn lemma_shared_channel_one_batch(
    subs: Seq<SubV>,
    ms: Seq<FromPublisher>,
    c: ChanId,
    out: Seq<(ChanId, Vec<(SubId, Value)>)>,
)
    requires
        forall|a: int|
            0 <= a < subs.len() ==> (#[trigger] subs[a]).streams.len() == 1 && subs[a].streams[0].1
                == c,
        batches_match(out, expand(subs, ms)),
        single_stream_feed(subs, ms).len() > 0,
    ensures
        out.len() == 1,
        out[0].0 == c,
        pairs_view(out[0].1@) == single_stream_feed(subs, ms),
{
    let e = expand(subs, ms);
    lemma_shared_feed(subs, ms, c, c);
    assert(for_chan(e, c).len() > 0);
    let j = choose|j: int| 0 <= j < out.len() && out[j].0 == c;
    assert forall|k: int| 0 <= k < out.len() implies out[k].0 == c by {
        assert(pairs_view(out[k].1@) == for_chan(e, out[k].0) && out[k].1@.len() > 0);
        assert(pairs_view(out[k].1@).len() == out[k].1@.len());
        lemma_shared_feed(subs, ms, c, out[k].0);
    }
    if out.len() > 1 {
        let k = if j == 0 { 1int } else { 0int };
        assert(out[k].0 == c);
        assert(out[k].0 != out[j].0);
    }
    assert(pairs_view(out[j].1@) == for_chan(e, out[j].0));
}

/// Whether every message of a decoded batch is an update: such a batch
/// takes the coalescing path.
pub fn only_updates(batch: &Vec<FromPublisher>) -> (r: bool)
    ensures
        r == forall|i: int| 0 <= i < batch@.len() ==> #[trigger] batch@[i] is Update,
{
    let mut i: usize = 0;
    while i < batch.len()
        invariant
            i <= batch@.len(),
            forall|j: int| 0 <= j < i ==> #[trigger] batch@[j] is Update,
        decreases batch.len() - i,
    {
        match &batch[i] {
            FromPublisher::Update(_, _) => {},
            _ => {
                return false;
            },
        }
        i = i + 1;
    }
    true
}

/// Protocol version both sides send first.
pub const PROTOCOL_VERSION: u64 = 1;

/// The hello messages of the publisher handshake.
#[derive(Debug, Clone, PartialEq, Eq)]
pub enum Hello {
    Anonymous,
    Token(Vec<u8>),
    ResolverAuthenticate(u64, Vec<u8>),
}

/// How a subscriber authenticates to publishers.
#[derive(Debug, Clone, Copy, PartialEq, Eq, Structural)]
pub enum AuthMode {
    Anonymous,
    Kerberos,
}

/// What the publisher's hello reply means: done (`None`), a token to feed
/// to the credential context (`Some`), or a failed handshake. Anonymous
/// peers must answer anonymously; a Kerberos peer must answer with a token.
pub fn check_hello_reply(mode: AuthMode, reply: &Hello) -> (r: Result<Option<&Vec<u8>>, SubError>)
    ensures
        mode == AuthMode::Anonymous ==> (reply is Anonymous <==> r == Ok::<Option<&Vec<u8>>, SubError>(None))
            && (!(reply is Anonymous) ==> r == Err::<Option<&Vec<u8>>, SubError>(SubError::AuthFailed)),
        mode == AuthMode::Kerberos ==> match reply {
            Hello::Anonymous => r == Err::<Option<&Vec<u8>>, SubError>(SubError::AuthFailed),
            Hello::ResolverAuthenticate(_, _) => r == Err::<Option<&Vec<u8>>, SubError>(SubError::InvalidData),
            Hello::Token(t) => r == Ok::<Option<&Vec<u8>>, SubError>(Some(t)),
        },
{
    match mode {
        AuthMode::Anonymous => match reply {
            Hello::Anonymous => Ok(None),
            _ => Err(SubError::AuthFailed),
        },
        AuthMode::Kerberos => match reply {
            Hello::Anonymous => Err(SubError::AuthFailed),
            Hello::ResolverAuthenticate(_, _) => Err(SubError::InvalidData),
            Hello::Token(t) => Ok(Some(t)),
        },
    }
}

/// After the publisher's token, the credential context must be complete: a
/// further token from it means the peer misbehaves.
pub fn check_final_step(step_produced_token: bool) -> (r: Result<(), SubError>)
    ensures
        step_produced_token <==> r == Err::<(), SubError>(SubError::AuthFailed),
        !step_produced_token <==> r is Ok,
{
    if step_produced_token {
        Err(SubError::AuthFailed)
    } else {
        Ok(())
    }
}

/// The state of one publisher connection.
pub struct Connection<W> {
    pending: Vec<SubscribeRequest<W>>,
    subs: Vec<Sub>,
    idle: u64,
    msg_recvd: bool,
}

impl<W> Connection<W> {
    /// The pending subscribe requests.
    pub closed spec fn pending_v(&self) -> Seq<RequestV<W>> {
        self.pending@.map_values(|r: SubscribeRequest<W>| r@)
    }

    /// The live subscriptions.
    pub closed spec fn subs_v(&self) -> Seq<SubV> {
        self.subs@.map_values(|s: Sub| s@)
    }

    /// Consecutive ticks seen with nothing pending and nothing subscribed.
    pub closed spec fn idle_ticks(&self) -> u64 {
        self.idle
    }

    /// Whether anything arrived from the publisher since the last tick.
    pub closed spec fn heard(&self) -> bool {
        self.msg_recvd
    }

    /// At most one pending request per path, at most one subscription per
    /// publisher id.
    pub open spec fn wf(&self) -> bool {
        &&& paths_distinct(self.pending_v())
        &&& ids_distinct(self.subs_v())
        &&& self.idle_ticks() < IDLE_TICKS
    }

    pub fn new() -> (r: Connection<W>)
        ensures
            r.wf(),
            r.pending_v() == Seq::<RequestV<W>>::empty(),
            r.subs_v() == Seq::<SubV>::empty(),
            r.idle_ticks() == 0,
            !r.heard(),
    {
        let r = Connection { pending: Vec::new(), subs: Vec::new(), idle: 0, msg_recvd: false };
        assert(r.pending_v() =~= Seq::<RequestV<W>>::empty());
        assert(r.subs_v() =~= Seq::<SubV>::empty());
        r
    }

    /// Index of the subscription with publisher id `id`.
    fn find_sub(&self, id: u64) -> (r: Option<usize>)
        requires
            self.wf(),
        ensures
            r is None <==> !has_id(self.subs_v(), id),
            r matches Some(k) ==> k < self.subs_v().len() && k == id_index(self.subs_v(), id),
    {
        let mut k: usize = 0;
        while k < self.subs.len()
            invariant
                k <= self.subs@.len(),
                self.wf(),
                self.subs_v().len() == self.subs@.len(),
                forall|j: int| 0 <= j < k ==> #[trigger] self.subs_v()[j].id != id,
            decreases self.subs.len() - k,
        {
            if self.subs[k].id == id {
                proof {
                    lemma_id_index(self.subs_v(), k as int);
                }
                return Some(k);
            }
            k = k + 1;
        }
        None
    }

    /// Index of the pending request for `path`.
    fn find_pending(&self, path: &String) -> (r: Option<usize>)
        requires
            self.wf(),
        ensures
            r is None <==> !has_path(self.pending_v(), path@),
            r matches Some(k) ==> k < self.pending_v().len() && k == path_index(
                self.pending_v(),
                path@,
            ),
    {
        let mut k: usize = 0;
        while k < self.pending.len()
            invariant
                k <= self.pending@.len(),
                self.wf(),
                self.pending_v().len() == self.pending@.len(),
                forall|j: int| 0 <= j < k ==> #[trigger] self.pending_v()[j].path != path@,
            decreases self.pending.len() - k,
        {
            if self.pending[k].path == *path {
                proof {
                    lemma_path_index(self.pending_v(), k as int);
                }
                return Some(k);
            }
            k = k + 1;
        }
        None
    }

    /// Fast path for a batch made only of updates. Each update becomes its
    /// subscription's last value, and each destination channel receives
    /// exactly one batch holding every `(sub_id, value)` pair meant for it,
    /// in wire order. Updates for unknown ids are ignored.
    pub fn process_updates_batch(&mut self, batch: &Vec<FromPublisher>) -> (out: Vec<
        (ChanId, Vec<(SubId, Value)>),
    >)
        requires
            old(self).wf(),
        ensures
            final(self).wf(),
            final(self).heard(),
            final(self).idle_ticks() == old(self).idle_ticks(),
            final(self).pending_v() == old(self).pending_v(),
            final(self).subs_v() == apply_lasts(old(self).subs_v(), batch@),
            batches_match(out@, expand(old(self).subs_v(), batch@)),
    {
        let ghost subs0 = self.subs_v();
        let ghost ms = batch@;
        let mut out: Vec<(ChanId, Vec<(SubId, Value)>)> = Vec::new();
        proof {
            assert(expand(subs0, ms.take(0)) =~= Seq::<(ChanId, (SubId, ValueV))>::empty());
            assert forall|c: ChanId| #[trigger] for_chan(Seq::<(ChanId, (SubId, ValueV))>::empty(), c).len() == 0 by {}
        }
        let mut k: usize = 0;
        while k < batch.len()
            invariant
                self.wf(),
                self.subs_v() == subs0,
                ms == batch@,
                k <= ms.len(),
                batches_match(out@, expand(subs0, ms.take(k as int))),
            decreases batch.len() - k,
        {
            let ghost e0 = expand(subs0, ms.take(k as int));
            let ghost row = update_row(subs0, ms[k as int]);
            proof {
                assert(ms.take(k + 1).drop_last() =~= ms.take(k as int));
                assert(expand(subs0, ms.take(k + 1)) == e0 + row);
            }
            match &batch[k] {
                FromPublisher::Update(i, v) => {
                    match self.find_sub(*i) {
                        Some(s) => {
                            let streams = &self.subs[s].streams;
                            assert(row =~= streams@.map_values(
                                |t: (SubId, ChanId)| (t.1, (t.0, v@)),
                            ));
                            let mut j: usize = 0;
                            while j < streams.len()
                                invariant
                                    j <= streams@.len(),
                                    row == streams@.map_values(
                                        |t: (SubId, ChanId)| (t.1, (t.0, v@)),
                                    ),
                                    batches_match(out@, e0 + row.take(j as int)),
                                decreases streams.len() - j,
                            {
                                let (sid, c) = streams[j];
                                let d = v.duplicate();
                                proof {
                                    assert(row.take(j + 1) =~= row.take(j as int).push(row[j as int]));
                                    assert(e0 + row.take(j + 1) =~= (e0 + row.take(j as int)).push(
                                        (c, (sid, d@)),
                                    ));
                                }
                                add_delivery(&mut out, c, sid, d, Ghost(e0 + row.take(j as int)));
                                j = j + 1;
                            }
                            assert(row.take(j as int) =~= row);
                        },
                        None => {
                            assert(e0 + row =~= e0);
                        },
                    }
                },
                _ => {
                    assert(e0 + row =~= e0);
                },
            }
            k = k + 1;
        }
        assert(ms.take(k as int) =~= ms);
        let mut k: usize = 0;
        assert(ms.take(0) =~= Seq::<FromPublisher>::empty());
        while k < batch.len()
            invariant
                self.wf(),
                ms == batch@,
                k <= ms.len(),
                self.subs_v() == apply_lasts(subs0, ms.take(k as int)),
                self.pending_v() == old(self).pending_v(),
                self.idle_ticks() == old(self).idle_ticks(),
            decreases batch.len() - k,
        {
            proof {
                assert(ms.take(k + 1).drop_last() =~= ms.take(k as int));
            }
            match &batch[k] {
                FromPublisher::Update(i, v) => {
                    match self.find_sub(*i) {
                        Some(s) => {
                            let ghost sv = self.subs_v();
                            self.subs[s].last = v.duplicate();
                            proof {
                                assert(self.subs_v() =~= sv.update(
                                    s as int,
                                    SubV { last: v@, ..sv[s as int] },
                                ));
                                assert forall|a: int, b: int|
                                    0 <= a < self.subs_v().len() && 0 <= b < self.subs_v().len()
                                        && a != b implies #[trigger] self.subs_v()[a].id
                                    != #[trigger] self.subs_v()[b].id by {
                                    assert(self.subs_v()[a].id == sv[a].id);
                                    assert(self.subs_v()[b].id == sv[b].id);
                                }
                            }
                        },
                        None => {},
                    }
                },
                _ => {},
            }
            k = k + 1;
        }
        assert(ms.take(k as int) =~= ms);
        self.msg_recvd = true;
        out
    }

    /// Process one reply of a mixed batch.
    pub fn handle_reply(&mut self, m: &FromPublisher, effects: &mut Vec<Effect<W>>)
        requires
            old(self).wf(),
        ensures
            final(self).wf(),
            final(self).idle_ticks() == old(self).idle_ticks(),
            final(self).heard() == old(self).heard(),
            ({
                let r = step_spec(old(self).pending_v(), old(self).subs_v(), *m);
                &&& final(self).pending_v() == r.0
                &&& final(self).subs_v() == r.1
                &&& effects_view(final(effects)@) == effects_view(old(effects)@) + r.2
            }),
    {
        let ghost p0 = self.pending_v();
        let ghost s0 = self.subs_v();
        let ghost e0 = effects_view(effects@);
        let ghost r = step_spec(p0, s0, *m);
        match m {
            FromPublisher::Update(i, v) => {
                match self.find_sub(*i) {
                    Some(k) => {
                        let n = self.subs[k].streams.len();
                        let mut j: usize = 0;
                        while j < n
                            invariant
                                self.wf(),
                                self.subs_v() == s0,
                                self.pending_v() == p0,
                                self.idle_ticks() == old(self).idle_ticks(),
                                self.heard() == old(self).heard(),
                                k < s0.len(),
                                n == s0[k as int].streams.len(),
                                j <= n,
                                effects_view(effects@) == e0 + r.2.take(j as int),
                                r.2 == s0[k as int].streams.map_values(
                                    |t: (SubId, ChanId)| EffectV::<W>::Deliver(t.1, seq![(t.0, v@)]),
                                ),
                            decreases n - j,
                        {
                            let (sid, c) = self.subs[k].streams[j];
                            let mut b: Vec<(SubId, Value)> = Vec::new();
                            b.push((sid, v.duplicate()));
                            let ghost ev = effects_view(effects@);
                            effects.push(Effect::Deliver(c, b));
                            proof {
                                assert(pairs_view(b@) =~= seq![(sid, v@)]);
                                assert(effects_view(effects@) =~= ev.push(
                                    EffectV::Deliver(c, seq![(sid, v@)]),
                                ));
                                assert(r.2.take(j + 1) =~= r.2.take(j as int).push(r.2[j as int]));
                            }
                            j = j + 1;
                        }
                        assert(r.2.take(j as int) =~= r.2);
                        let ghost sv = self.subs_v();
                        self.subs[k].last = v.duplicate();
                        proof {
                            assert(self.subs_v() =~= r.1);
                            assert forall|a: int, b: int|
                                0 <= a < self.subs_v().len() && 0 <= b < self.subs_v().len() && a
                                    != b implies #[trigger] self.subs_v()[a].id
                                != #[trigger] self.subs_v()[b].id by {
                                assert(self.subs_v()[a].id == sv[a].id);
                                assert(self.subs_v()[b].id == sv[b].id);
                            }
                        }
                    },
                    None => {
                        effects.push(Effect::Send(ToPublisher::Unsubscribe(*i)));
                        assert(effects_view(effects@) =~= e0 + r.2);
                    },
                }
            },
            FromPublisher::Heartbeat => {
                assert(e0 + r.2 =~= e0);
            },
            FromPublisher::NoSuchValue(p) | FromPublisher::Denied(p) => {
                match self.find_pending(p) {
                    Some(k) => {
                        let req = self.pending.remove(k);
                        let err = match m {
                            FromPublisher::NoSuchValue(_) => SubError::PathNotFound,
                            _ => SubError::AccessDenied,
                        };
                        effects.push(Effect::Finish(req.finished, Err(err)));
                        proof {
                            assert(self.pending_v() =~= p0.remove(k as int));
                            assert(effects_view(effects@) =~= e0 + r.2);
                            assert forall|a: int, b: int|
                                0 <= a < self.pending_v().len() && 0 <= b < self.pending_v().len()
                                    && a != b implies #[trigger] self.pending_v()[a].path
                                != #[trigger] self.pending_v()[b].path by {
                                let a0 = if a < k { a } else { a + 1 };
                                let b0 = if b < k { b } else { b + 1 };
                                assert(self.pending_v()[a] == p0[a0]);
                                assert(self.pending_v()[b] == p0[b0]);
                            }
                        }
                    },
                    None => {
                        assert(e0 + r.2 =~= e0);
                    },
                }
            },
            FromPublisher::Unsubscribed(id) => {
                match self.find_sub(*id) {
                    Some(k) => {
                        let sub = self.subs.remove(k);
                        effects.push(Effect::Unsubscribed(sub.path, *id));
                        proof {
                            assert(self.subs_v() =~= s0.remove(k as int));
                            assert(effects_view(effects@) =~= e0 + r.2);
                            assert forall|a: int, b: int|
                                0 <= a < self.subs_v().len() && 0 <= b < self.subs_v().len() && a
                                    != b implies #[trigger] self.subs_v()[a].id
                                != #[trigger] self.subs_v()[b].id by {
                                let a0 = if a < k { a } else { a + 1 };
                                let b0 = if b < k { b } else { b + 1 };
                                assert(self.subs_v()[a] == s0[a0]);
                                assert(self.subs_v()[b] == s0[b0]);
                            }
                        }
                    },
                    None => {
                        assert(e0 + r.2 =~= e0);
                    },
                }
            },
            FromPublisher::Subscribed(p, id, v) => {
                match self.find_pending(p) {
                    Some(k) => {
                        let req = self.pending.remove(k);
                        proof {
                            assert(self.pending_v() =~= p0.remove(k as int));
                            assert forall|a: int, b: int|
                                0 <= a < self.pending_v().len() && 0 <= b < self.pending_v().len()
                                    && a != b implies #[trigger] self.pending_v()[a].path
                                != #[trigger] self.pending_v()[b].path by {
                                let a0 = if a < k { a } else { a + 1 };
                                let b0 = if b < k { b } else { b + 1 };
                                assert(self.pending_v()[a] == p0[a0]);
                                assert(self.pending_v()[b] == p0[b0]);
                            }
                        }
                        let sub = Sub { id: *id, path: req.path, last: v.duplicate(), streams: Vec::new() };
                        let ghost sv = sub@;
                        assert(sv == SubV { id: *id, path: p0[k as int].path, last: v@, streams: Seq::<(SubId, ChanId)>::empty() });
                        match self.find_sub(*id) {
                            Some(k2) => {
                                self.subs.set(k2, sub);
                                proof {
                                    assert(self.subs_v() =~= s0.update(k2 as int, sv));
                                    assert forall|a: int, b: int|
                                        0 <= a < self.subs_v().len() && 0 <= b < self.subs_v().len()
                                            && a != b implies #[trigger] self.subs_v()[a].id
                                        != #[trigger] self.subs_v()[b].id by {
                                        assert(self.subs_v()[a].id == s0[a].id);
                                        assert(self.subs_v()[b].id == s0[b].id);
                                    }
                                }
                            },
                            None => {
                                self.subs.push(sub);
                                proof {
                                    assert(self.subs_v() =~= s0.push(sv));
                                    assert forall|a: int, b: int|
                                        0 <= a < self.subs_v().len() && 0 <= b < self.subs_v().len()
                                            && a != b implies #[trigger] self.subs_v()[a].id
                                        != #[trigger] self.subs_v()[b].id by {
                                        if a < s0.len() && b < s0.len() {
                                            assert(self.subs_v()[a] == s0[a]);
                                            assert(self.subs_v()[b] == s0[b]);
                                        } else if a < s0.len() {
                                            assert(self.subs_v()[a] == s0[a]);
                                            assert(s0[a].id != *id);
                                        } else {
                                            assert(self.subs_v()[b] == s0[b]);
                                            assert(s0[b].id != *id);
                                        }
                                    }
                                }
                            },
                        }
                        effects.push(Effect::Finish(req.finished, Ok(*id)));
                        assert(effects_view(effects@) =~= e0 + r.2);
                    },
                    None => {
                        effects.push(Effect::Send(ToPublisher::Unsubscribe(*id)));
                        assert(effects_view(effects@) =~= e0 + r.2);
                    },
                }
            },
        }
    }

    /// Slow path for a batch that holds control replies: each reply is
    /// processed in wire order, with one single-pair batch per stream for
    /// each update, so that replies and updates stay in order.
    pub fn process_batch(&mut self, batch: &Vec<FromPublisher>) -> (effects: Vec<Effect<W>>)
        requires
            old(self).wf(),
        ensures
            final(self).wf(),
            final(self).heard(),
            final(self).idle_ticks() == old(self).idle_ticks(),
            ({
                let r = steps_spec(old(self).pending_v(), old(self).subs_v(), batch@);
                &&& final(self).pending_v() == r.0
                &&& final(self).subs_v() == r.1
                &&& effects_view(effects@) == r.2
            }),
    {
        let ghost p0 = self.pending_v();
        let ghost s0 = self.subs_v();
        let mut effects: Vec<Effect<W>> = Vec::new();
        let mut k: usize = 0;
        assert(batch@.take(0) =~= Seq::<FromPublisher>::empty());
        assert(effects_view(effects@) =~= Seq::<EffectV<W>>::empty());
        while k < batch.len()
            invariant
                self.wf(),
                k <= batch@.len(),
                self.idle_ticks() == old(self).idle_ticks(),
                ({
                    let r = steps_spec(p0, s0, batch@.take(k as int));
                    &&& self.pending_v() == r.0
                    &&& self.subs_v() == r.1
                    &&& effects_view(effects@) == r.2
                }),
            decreases batch.len() - k,
        {
            proof {
                assert(batch@.take(k + 1).drop_last() =~= batch@.take(k as int));
            }
            self.handle_reply(&batch[k], &mut effects);
            k = k + 1;
        }
        assert(batch@.take(k as int) =~= batch@);
        self.msg_recvd = true;
        effects
    }

    /// Record a subscribe request and ask the publisher for the path. A
    /// request already pending for the same path is replaced, and its
    /// waiter learns that it will get no answer.
    pub fn subscribe(&mut self, req: SubscribeRequest<W>) -> (effects: Vec<Effect<W>>)
        requires
            old(self).wf(),
        ensures
            final(self).wf(),
            final(self).subs_v() == old(self).subs_v(),
            final(self).idle_ticks() == old(self).idle_ticks(),
            final(self).heard() == old(self).heard(),
            ({
                let p0 = old(self).pending_v();
                let send = EffectV::Send(ToV::Subscribe(req.path@, req.resolver, req.token@));
                if has_path(p0, req.path@) {
                    let k = path_index(p0, req.path@);
                    &&& final(self).pending_v() == p0.remove(k).push(req@)
                    &&& effects_view(effects@) == seq![
                        EffectV::Finish(p0[k].finished, Err(SubError::ConnectionDied)),
                        send,
                    ]
                } else {
                    &&& final(self).pending_v() == p0.push(req@)
                    &&& effects_view(effects@) == seq![send]
                }
            }),
    {
        let ghost p0 = self.pending_v();
        let ghost rv = req@;
        let mut effects: Vec<Effect<W>> = Vec::new();
        match self.find_pending(&req.path) {
            Some(k) => {
                let old_req = self.pending.remove(k);
                effects.push(Effect::Finish(old_req.finished, Err(SubError::ConnectionDied)));
                proof {
                    assert(self.pending_v() =~= p0.remove(k as int));
                    lemma_remove_keeps_paths_distinct(p0, k as int);
                }
            },
            None => {},
        }
        let ghost p1 = self.pending_v();
        assert(!has_path(p1, rv.path)) by {
            if has_path(p1, rv.path) {
                let a = choose|a: int| 0 <= a < p1.len() && #[trigger] p1[a].path == rv.path;
                if has_path(p0, rv.path) {
                    let k = path_index(p0, rv.path);
                    let a0 = if a < k { a } else { a + 1 };
                    assert(p1[a] == p0[a0]);
                    assert(p0[k].path == rv.path);
                }
            }
        }
        let send = ToPublisher::Subscribe {
            path: req.path.clone(),
            resolver: req.resolver,
            token: copy_bytes(&req.token),
        };
        effects.push(Effect::Send(send));
        self.pending.push(req);
        proof {
            assert(self.pending_v() =~= p1.push(rv));
            assert forall|a: int, b: int|
                0 <= a < self.pending_v().len() && 0 <= b < self.pending_v().len() && a != b implies #[trigger] self.pending_v()[a].path
                != #[trigger] self.pending_v()[b].path by {
                if a < p1.len() && b < p1.len() {
                    assert(self.pending_v()[a] == p1[a]);
                    assert(self.pending_v()[b] == p1[b]);
                } else if a < p1.len() {
                    assert(self.pending_v()[a] == p1[a]);
                } else {
                    assert(self.pending_v()[b] == p1[b]);
                }
            }
            let send_v = EffectV::<W>::Send(ToV::Subscribe(rv.path, rv.resolver, rv.token));
            if has_path(p0, rv.path) {
                assert(effects_view(effects@) =~= seq![
                    EffectV::Finish(p0[path_index(p0, rv.path)].finished, Err(SubError::ConnectionDied)),
                    send_v,
                ]);
            } else {
                assert(p1 == p0);
                assert(effects_view(effects@) =~= seq![send_v]);
            }
        }
        effects
    }

    /// The last value of the subscription with publisher id `id`, or `None`
    /// if there is no such subscription.
    pub fn last(&self, id: u64) -> (r: Option<Value>)
        requires
            self.wf(),
        ensures
            r is None <==> !has_id(self.subs_v(), id),
            r matches Some(v) ==> v@ == self.subs_v()[id_index(self.subs_v(), id)].last,
    {
        match self.find_sub(id) {
            Some(k) => Some(self.subs[k].last.duplicate()),
            None => None,
        }
    }

    /// Attach a stream to the subscription with publisher id `id`. When
    /// `begin_with_last` holds, the stream first gets a one-pair batch with
    /// the current value, which is returned for the caller to send. Nothing
    /// happens for an unknown id.
    pub fn stream(&mut self, id: u64, sub_id: SubId, chan: ChanId, begin_with_last: bool) -> (r:
        Option<Vec<(SubId, Value)>>)
        requires
            old(self).wf(),
        ensures
            final(self).wf(),
            final(self).pending_v() == old(self).pending_v(),
            final(self).idle_ticks() == old(self).idle_ticks(),
            final(self).heard() == old(self).heard(),
            ({
                let s0 = old(self).subs_v();
                if has_id(s0, id) {
                    let k = id_index(s0, id);
                    &&& final(self).subs_v() == s0.update(
                        k,
                        SubV { streams: s0[k].streams.push((sub_id, chan)), ..s0[k] },
                    )
                    &&& (begin_with_last ==> (r matches Some(b) && pairs_view(b@) == seq![
                        (sub_id, s0[k].last),
                    ]))
                    &&& (!begin_with_last ==> r is None)
                } else {
                    &&& final(self).subs_v() == s0
                    &&& r is None
                }
            }),
    {
        let ghost s0 = self.subs_v();
        match self.find_sub(id) {
            Some(k) => {
                let r = if begin_with_last {
                    let mut b: Vec<(SubId, Value)> = Vec::new();
                    b.push((sub_id, self.subs[k].last.duplicate()));
                    assert(pairs_view(b@) =~= seq![(sub_id, s0[k as int].last)]);
                    Some(b)
                } else {
                    None
                };
                self.subs[k].streams.push((sub_id, chan));
                proof {
                    assert(self.subs_v() =~= s0.update(
                        k as int,
                        SubV { streams: s0[k as int].streams.push((sub_id, chan)), ..s0[k as int] },
                    ));
                    assert forall|a: int, b: int|
                        0 <= a < self.subs_v().len() && 0 <= b < self.subs_v().len() && a != b implies #[trigger] self.subs_v()[a].id
                        != #[trigger] self.subs_v()[b].id by {
                        assert(self.subs_v()[a].id == s0[a].id);
                        assert(self.subs_v()[b].id == s0[b].id);
                    }
                }
                r
            },
            None => None,
        }
    }

    /// Detach channel `chan` from every subscription, once it is found
    /// closed.
    pub fn detach_chan(&mut self, chan: ChanId)
        requires
            old(self).wf(),
        ensures
            final(self).wf(),
            final(self).pending_v() == old(self).pending_v(),
            final(self).idle_ticks() == old(self).idle_ticks(),
            final(self).heard() == old(self).heard(),
            final(self).subs_v().len() == old(self).subs_v().len(),
            forall|i: int|
                0 <= i < old(self).subs_v().len() ==> #[trigger] final(self).subs_v()[i] == (SubV {
                    streams: without_chan(old(self).subs_v()[i].streams, chan),
                    ..old(self).subs_v()[i]
                }),
    {
        let ghost s0 = self.subs_v();
        let mut k: usize = 0;
        while k < self.subs.len()
            invariant
                self.wf(),
                k <= self.subs@.len(),
                self.subs_v().len() == s0.len(),
                self.pending_v() == old(self).pending_v(),
                self.idle_ticks() == old(self).idle_ticks(),
                self.heard() == old(self).heard(),
                forall|i: int| 0 <= i < k ==> #[trigger] self.subs_v()[i] == (SubV {
                    streams: without_chan(s0[i].streams, chan),
                    ..s0[i]
                }),
                forall|i: int| k <= i < s0.len() ==> #[trigger] self.subs_v()[i] == s0[i],
            decreases self.subs.len() - k,
        {
            let mut kept: Vec<(SubId, ChanId)> = Vec::new();
            let n = self.subs[k].streams.len();
            let mut j: usize = 0;
            let ghost st = s0[k as int].streams;
            while j < n
                invariant
                    j <= n,
                    n == st.len(),
                    k < self.subs@.len(),
                    self.subs_v()[k as int].streams == st,
                    kept@ == without_chan(st.take(j as int), chan),
                decreases n - j,
            {
                let t = self.subs[k].streams[j];
                proof {
                    assert(st.take(j + 1).drop_last() =~= st.take(j as int));
                }
                if t.1 != chan {
                    kept.push(t);
                }
                j = j + 1;
            }
            assert(st.take(j as int) =~= st);
            let ghost sv = self.subs_v();
            self.subs[k].streams = kept;
            proof {
                assert forall|a: int| 0 <= a < self.subs_v().len() && a != k implies #[trigger] self.subs_v()[a] == sv[a] by {}
                assert forall|a: int, b: int|
                    0 <= a < self.subs_v().len() && 0 <= b < self.subs_v().len() && a != b implies #[trigger] self.subs_v()[a].id
                    != #[trigger] self.subs_v()[b].id by {
                    assert(self.subs_v()[a].id == sv[a].id);
                    assert(self.subs_v()[b].id == sv[b].id);
                }
            }
            k = k + 1;
        }
    }

    /// The waiter for subscription `id` went away before it could take the
    /// handle: forget the subscription and tell the publisher.
    pub fn abandon(&mut self, id: u64) -> (r: ToPublisher)
        requires
            old(self).wf(),
        ensures
            final(self).wf(),
            final(self).pending_v() == old(self).pending_v(),
            final(self).idle_ticks() == old(self).idle_ticks(),
            final(self).heard() == old(self).heard(),
            r@ == ToV::Unsubscribe(id),
            has_id(old(self).subs_v(), id) ==> final(self).subs_v() == old(self).subs_v().remove(
                id_index(old(self).subs_v(), id),
            ),
            !has_id(old(self).subs_v(), id) ==> final(self).subs_v() == old(self).subs_v(),
    {
        let ghost s0 = self.subs_v();
        match self.find_sub(id) {
            Some(k) => {
                let _ = self.subs.remove(k);
                proof {
                    assert(self.subs_v() =~= s0.remove(k as int));
                    lemma_remove_keeps_ids_distinct(s0, k as int);
                }
            },
            None => {},
        }
        ToPublisher::Unsubscribe(id)
    }

    /// The periodic liveness tick at time `now`. A publisher that sent
    /// nothing since the previous tick is hung. A connection with nothing
    /// pending and nothing subscribed at two ticks in a row is idle.
    /// Otherwise every pending request past its deadline fails as timed out.
    pub fn tick(&mut self, now: u64) -> (r: TickOutcome<W>)
        requires
            old(self).wf(),
        ensures
            final(self).wf(),
            final(self).subs_v() == old(self).subs_v(),
            !old(self).heard() ==> r is Hung && final(self).pending_v() == old(self).pending_v(),
            old(self).heard() && old(self).subs_v().len() == 0 && old(self).pending_v().len() == 0
                && old(self).idle_ticks() + 1 == IDLE_TICKS ==> r is Idle,
            old(self).heard() && !(old(self).subs_v().len() == 0 && old(self).pending_v().len() == 0
                && old(self).idle_ticks() + 1 == IDLE_TICKS) ==> {
                &&& !final(self).heard()
                &&& final(self).idle_ticks() == if old(self).subs_v().len() == 0
                    && old(self).pending_v().len() == 0 {
                    old(self).idle_ticks() + 1
                } else {
                    0
                }
                &&& final(self).pending_v() == live_spec(old(self).pending_v(), now)
                &&& (r matches TickOutcome::Continue(e) && effects_view(e@) == timeouts_spec(
                    old(self).pending_v(),
                    now,
                ))
            },
    {
        if !self.msg_recvd {
            return TickOutcome::Hung;
        }
        if self.subs.len() == 0 && self.pending.len() == 0 {
            if self.idle + 1 == IDLE_TICKS {
                return TickOutcome::Idle;
            }
            self.idle = self.idle + 1;
        } else {
            self.idle = 0;
        }
        self.msg_recvd = false;
        let ghost p0 = self.pending_v();
        let mut rest = self.pending.split_off(0);
        let mut effects: Vec<Effect<W>> = Vec::new();
        assert(rest@.map_values(|r: SubscribeRequest<W>| r@) == p0);
        assert(self.pending_v() =~= Seq::<RequestV<W>>::empty());
        assert(Seq::<RequestV<W>>::empty() + p0 =~= p0);
        while rest.len() > 0
            invariant
                self.idle_ticks() < IDLE_TICKS,
                ids_distinct(self.subs_v()),
                paths_distinct(self.pending_v() + rest@.map_values(|r: SubscribeRequest<W>| r@)),
                self.pending_v() + live_spec(rest@.map_values(|r: SubscribeRequest<W>| r@), now)
                    == live_spec(p0, now),
                effects_view(effects@) + timeouts_spec(
                    rest@.map_values(|r: SubscribeRequest<W>| r@),
                    now,
                ) == timeouts_spec(p0, now),
                self.subs_v() == old(self).subs_v(),
                !self.heard(),
                self.idle_ticks() == if old(self).subs_v().len() == 0
                    && old(self).pending_v().len() == 0 {
                    old(self).idle_ticks() + 1
                } else {
                    0
                },
            decreases rest@.len(),
        {
            let ghost rv = rest@.map_values(|r: SubscribeRequest<W>| r@);
            let ghost pv = self.pending_v();
            let ghost ev = effects_view(effects@);
            let req = rest.remove(0);
            let ghost rv2 = rest@.map_values(|r: SubscribeRequest<W>| r@);
            assert(rv2 =~= rv.drop_first());
            let is_expired = match req.deadline {
                Some(d) => d < now,
                None => false,
            };
            if is_expired {
                effects.push(Effect::Finish(req.finished, Err(SubError::TimedOut)));
                proof {
                    assert(effects_view(effects@) =~= ev.push(
                        EffectV::Finish(rv[0].finished, Err(SubError::TimedOut)),
                    ));
                    assert(ev.push(EffectV::Finish(rv[0].finished, Err(SubError::TimedOut)))
                        + timeouts_spec(rv2, now) =~= ev + timeouts_spec(rv, now));
                    assert(pv + rv2 =~= (pv + rv).remove(pv.len() as int));
                    lemma_remove_keeps_paths_distinct(pv + rv, pv.len() as int);
                }
            } else {
                self.pending.push(req);
                proof {
                    assert(self.pending_v() =~= pv.push(rv[0]));
                    assert(self.pending_v() + rv2 =~= pv + rv);
                    assert(self.pending_v() + live_spec(rv2, now) =~= pv + live_spec(rv, now));
                }
            }
        }
        proof {
            let rv = rest@.map_values(|r: SubscribeRequest<W>| r@);
            assert(rv =~= Seq::<RequestV<W>>::empty());
            assert(self.pending_v() + rv =~= self.pending_v());
            assert(self.pending_v() + live_spec(rv, now) =~= self.pending_v());
            assert(effects_view(effects@) + timeouts_spec(rv, now) =~= effects_view(effects@));
        }
        TickOutcome::Continue(effects)
    }

    /// The connection ends: each live subscription goes through the
    /// registry's unsubscribe routine, then each pending waiter learns that
    /// the connection died.
    pub fn shutdown(self) -> (effects: Vec<Effect<W>>)
        requires
            self.wf(),
        ensures
            effects_view(effects@) == self.subs_v().map_values(
                |s: SubV| EffectV::<W>::Unsubscribed(s.path, s.id),
            ) + self.pending_v().map_values(
                |r: RequestV<W>| EffectV::Finish(r.finished, Err(SubError::ConnectionDied)),
            ),
    {
        let ghost sv = self.subs_v();
        let ghost pv = self.pending_v();
        let ghost us = sv.map_values(|s: SubV| EffectV::<W>::Unsubscribed(s.path, s.id));
        let ghost fs = pv.map_values(
            |r: RequestV<W>| EffectV::Finish(r.finished, Err(SubError::ConnectionDied)),
        );
        let Connection { pending, subs, idle: _, msg_recvd: _ } = self;
        let mut pending = pending;
        let mut effects: Vec<Effect<W>> = Vec::new();
        let mut k: usize = 0;
        while k < subs.len()
            invariant
                k <= subs@.len(),
                sv == subs@.map_values(|s: Sub| s@),
                effects_view(effects@) == us.take(k as int),
                us == sv.map_values(|s: SubV| EffectV::<W>::Unsubscribed(s.path, s.id)),
            decreases subs.len() - k,
        {
            effects.push(Effect::Unsubscribed(subs[k].path.clone(), subs[k].id));
            assert(us.take(k + 1) =~= us.take(k as int).push(us[k as int]));
            assert(effects_view(effects@) =~= us.take(k + 1));
            k = k + 1;
        }
        assert(us.take(k as int) =~= us);
        let ghost n0 = pending@.len();
        while pending.len() > 0
            invariant
                pending@.len() <= n0,
                n0 == pv.len(),
                pending@.map_values(|r: SubscribeRequest<W>| r@) == pv.skip(n0 - pending@.len()),
                effects_view(effects@) == us + fs.take(n0 - pending@.len()),
                fs == pv.map_values(
                    |r: RequestV<W>| EffectV::Finish(r.finished, Err(SubError::ConnectionDied)),
                ),
            decreases pending@.len(),
        {
            let ghost done = n0 - pending@.len();
            let ghost ev = effects_view(effects@);
            let ghost m0 = pending@;
            assert(m0.map_values(|r: SubscribeRequest<W>| r@)[0] == m0[0]@);
            assert(pv.skip(done)[0] == pv[done]);
            let req = pending.remove(0);
            assert(req@ == pv[done]);
            assert(pending@ =~= m0.drop_first());
            effects.push(Effect::Finish(req.finished, Err(SubError::ConnectionDied)));
            proof {
                let mv0 = m0.map_values(|r: SubscribeRequest<W>| r@);
                assert(mv0 == pv.skip(done));
                assert forall|i: int| 0 <= i < pending@.len() implies #[trigger] pending@[i]@ == pv.skip(
                    done + 1,
                )[i] by {
                    assert(pending@[i] == m0[i + 1]);
                    assert(mv0[i + 1] == m0[i + 1]@);
                }
                assert(pending@.map_values(|r: SubscribeRequest<W>| r@) =~= pv.skip(done + 1));
                assert(fs.take(done + 1) =~= fs.take(done).push(fs[done]));
                assert(effects_view(effects@) =~= ev.push(fs[done]));
            }
        }
        assert(fs.take(n0 as int) =~= fs);
        effects
    }
}

} // verus!
