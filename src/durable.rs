//! Retry bookkeeping for durable subscriptions: linear back-off per
//! subscription, and the scheduler's choice of what to resubscribe and when
//! to wake. Times are milliseconds on a monotonic clock.

use vstd::prelude::*;
use crate::value::SubId;

verus! {

/// Milliseconds of back-off added per consecutive failure.
pub const BACKOFF_STEP_MS: u64 = 1000;

/// Seconds a resubscribe batch is allowed before its worst back-off.
pub const RESUB_TIMEOUT_BASE_SECS: u64 = 10;

/// Slack after the earliest retry time before the scheduler wakes.
pub const WAKE_SLACK_MS: u64 = 1000;

pub open spec fn sat_add(a: nat, b: nat) -> u64 {
    if a + b > u64::MAX {
        u64::MAX
    } else {
        (a + b) as u64
    }
}

/// Retry state of one durable subscription.
#[derive(Debug, Clone, Copy, PartialEq, Eq, Structural)]
pub struct Backoff {
    /// Consecutive failed attempts.
    pub tries: u64,
    /// Earliest time of the next attempt.
    pub next_try: u64,
}

/// The back-off after a failed attempt at `now`: one more try, and the next
/// attempt `tries` seconds away.
pub open spec fn after_failure(b: Backoff, now: u64) -> Backoff {
    let tries = sat_add(b.tries as nat, 1);
    Backoff { tries, next_try: sat_add(now as nat, tries as nat * BACKOFF_STEP_MS as nat) }
}

/// The back-off after a successful attempt.
pub open spec fn after_success(b: Backoff) -> Backoff {
    Backoff { tries: 0, ..b }
}

/// How long a back-off makes the next attempt wait.
pub open spec fn retry_delay(b: Backoff) -> nat {
    b.tries as nat * BACKOFF_STEP_MS as nat
}

fn sat_add_u64(a: u64, b: u64) -> (r: u64)
    ensures
        r == sat_add(a as nat, b as nat),
{
    a.checked_add(b).unwrap_or(u64::MAX)
}

impl Backoff {
    /// A fresh durable subscription: no failures, due at once.
    pub fn new(now: u64) -> (r: Backoff)
        ensures
            r.tries == 0,
            r.next_try == now,
    {
        Backoff { tries: 0, next_try: now }
    }

    pub fn record_failure(&mut self, now: u64)
        ensures
            *final(self) == after_failure(*old(self), now),
    {
        self.tries = sat_add_u64(self.tries, 1);
        let step = self.tries.checked_mul(BACKOFF_STEP_MS).unwrap_or(u64::MAX);
        proof {
            if self.tries as nat * BACKOFF_STEP_MS as nat > u64::MAX {
                assert(sat_add(now as nat, self.tries as nat * BACKOFF_STEP_MS as nat) == u64::MAX);
            }
        }
        self.next_try = sat_add_u64(now, step);
    }

    pub fn record_success(&mut self)
        ensures
            *final(self) == after_success(*old(self)),
    {
        self.tries = 0;
    }

    /// Whether an attempt is due at `now`.
    pub fn due(&self, now: u64) -> (r: bool)
        ensures
            r == (self.next_try <= now),
    {
        self.next_try <= now
    }
}

/// Each consecutive failure makes the next wait strictly longer than the
/// one before, and a success brings the count of failures back to zero.
pub proof fn lemma_backoff_grows(b: Backoff, now1: u64, now2: u64)
    requires
        b.tries < u64::MAX - 1,
    ensures
        after_failure(b, now1).tries == b.tries + 1,
        retry_delay(after_failure(after_failure(b, now1), now2)) > retry_delay(after_failure(b, now1)),
        retry_delay(after_failure(b, now1)) > retry_delay(b),
        after_success(after_failure(b, now1)).tries == 0,
{
}

/// Whether a durable subscription currently has a live subscription.
#[derive(Debug, Clone, Copy, PartialEq, Eq, Structural)]
pub enum DVState {
    Subscribed,
    Unsubscribed,
}

/// The state of one durable subscription: its stable identity, the live
/// subscription handle `V` if any, and its retry back-off.
pub struct DurableSub<V> {
    sub_id: SubId,
    val: Option<V>,
    backoff: Backoff,
}

impl<V> DurableSub<V> {
    pub closed spec fn id_v(&self) -> SubId {
        self.sub_id
    }

    pub closed spec fn val_v(&self) -> Option<V> {
        self.val
    }

    pub closed spec fn backoff_v(&self) -> Backoff {
        self.backoff
    }

    /// A new durable subscription, not yet subscribed and due at once.
    pub fn new(sub_id: SubId, now: u64) -> (r: DurableSub<V>)
        ensures
            r.id_v() == sub_id,
            r.val_v() is None,
            r.backoff_v() == (Backoff { tries: 0, next_try: now }),
    {
        DurableSub { sub_id, val: None, backoff: Backoff::new(now) }
    }

    pub fn id(&self) -> (r: SubId)
        ensures
            r == self.id_v(),
    {
        self.sub_id
    }

    /// Subscribed exactly when a live subscription is held.
    pub fn state(&self) -> (r: DVState)
        ensures
            r == (if self.val_v() is Some {
                DVState::Subscribed
            } else {
                DVState::Unsubscribed
            }),
    {
        match self.val {
            Some(_) => DVState::Subscribed,
            None => DVState::Unsubscribed,
        }
    }

    pub fn val(&self) -> (r: Option<&V>)
        ensures
            r == match self.val_v() {
                Some(v) => Some(&v),
                None => None::<&V>,
            },
    {
        match &self.val {
            Some(v) => Some(v),
            None => None,
        }
    }

    pub fn backoff(&self) -> (r: Backoff)
        ensures
            r == self.backoff_v(),
    {
        self.backoff
    }

    /// The live subscription died: hand it back and become unsubscribed.
    pub fn lost(&mut self) -> (r: Option<V>)
        ensures
            r == old(self).val_v(),
            final(self).val_v() is None,
            final(self).id_v() == old(self).id_v(),
            final(self).backoff_v() == old(self).backoff_v(),
    {
        self.val.take()
    }

    /// A resubscribe attempt succeeded with `v`: the back-off starts over.
    pub fn resubscribed(&mut self, v: V)
        ensures
            final(self).val_v() == Some(v),
            final(self).id_v() == old(self).id_v(),
            final(self).backoff_v() == after_success(old(self).backoff_v()),
    {
        self.backoff.record_success();
        self.val = Some(v);
    }

    /// A resubscribe attempt at `now` failed: wait one second longer.
    pub fn failed(&mut self, now: u64)
        ensures
            final(self).val_v() == old(self).val_v(),
            final(self).id_v() == old(self).id_v(),
            final(self).backoff_v() == after_failure(old(self).backoff_v(), now),
    {
        self.backoff.record_failure(now);
    }
}

/// A failed attempt at `now` after `k` consecutive failures leaves `k + 1`
/// failures and the next attempt exactly `k + 1` seconds after `now`, away
/// from the machine limit.
pub proof fn lemma_failure_exact(b: Backoff, now: u64)
    requires
        b.tries < u64::MAX,
        now as nat + (b.tries as nat + 1) * BACKOFF_STEP_MS as nat <= u64::MAX,
    ensures
        after_failure(b, now).tries == b.tries + 1,
        after_failure(b, now).next_try == now as nat + (b.tries as nat + 1) * BACKOFF_STEP_MS as nat,
        retry_delay(after_failure(b, now)) == retry_delay(b) + BACKOFF_STEP_MS as nat,
{
}

/// Once its retry time has come, a dead subscription is among those the
/// scheduler resubscribes; and while nothing is due, the scheduler's
/// earliest retry time is no later than its own, so it wakes at most one
/// second after that.
pub proof fn lemma_retry_scheduled(s: Seq<Backoff>, i: int, now: u64)
    requires
        0 <= i < s.len(),
    ensures
        s[i].next_try <= now ==> due_spec(s, now).contains(i as usize),
        earliest_spec(s) is Some,
        earliest_spec(s)->Some_0 <= s[i].next_try,
    decreases s.len(),
{
    let n = s.len() - 1;
    if i < n {
        lemma_retry_scheduled(s.drop_last(), i, now);
        assert(s.drop_last()[i] == s[i]);
        if s[i].next_try <= now {
            let d = due_spec(s.drop_last(), now);
            let k = choose|k: int| 0 <= k < d.len() && d[k] == i as usize;
            if s.last().next_try <= now {
                assert(due_spec(s, now)[k] == i as usize);
            }
        }
    } else {
        if s[i].next_try <= now {
            assert(due_spec(s, now).last() == i as usize);
        }
    }
}

/// Positions of the entries due at `now`, in order.
pub open spec fn due_spec(s: Seq<Backoff>, now: u64) -> Seq<usize>
    decreases s.len(),
{
    if s.len() == 0 {
        Seq::empty()
    } else if s.last().next_try <= now {
        due_spec(s.drop_last(), now).push((s.len() - 1) as usize)
    } else {
        due_spec(s.drop_last(), now)
    }
}

/// The largest failure count among the entries due at `now`, or 0.
pub open spec fn max_due_tries(s: Seq<Backoff>, now: u64) -> u64
    decreases s.len(),
{
    if s.len() == 0 {
        0
    } else {
        let m = max_due_tries(s.drop_last(), now);
        if s.last().next_try <= now && s.last().tries > m {
            s.last().tries
        } else {
            m
        }
    }
}

/// The earliest retry time among the entries, if any.
pub open spec fn earliest_spec(s: Seq<Backoff>) -> Option<u64>
    decreases s.len(),
{
    if s.len() == 0 {
        None
    } else {
        match earliest_spec(s.drop_last()) {
            None => Some(s.last().next_try),
            Some(m) => if s.last().next_try < m {
                Some(s.last().next_try)
            } else {
                Some(m)
            },
        }
    }
}

/// The dead durable subscriptions due at `now`, by position, with the
/// largest failure count among them.
pub fn select_due(entries: &Vec<Backoff>, now: u64) -> (r: (Vec<usize>, u64))
    ensures
        r.0@ == due_spec(entries@, now),
        r.1 == max_due_tries(entries@, now),
{
    let mut sel: Vec<usize> = Vec::new();
    let mut max_tries: u64 = 0;
    let mut i: usize = 0;
    while i < entries.len()
        invariant
            i <= entries@.len(),
            sel@ == due_spec(entries@.take(i as int), now),
            max_tries == max_due_tries(entries@.take(i as int), now),
        decreases entries.len() - i,
    {
        proof {
            assert(entries@.take(i + 1).drop_last() =~= entries@.take(i as int));
        }
        let e = entries[i];
        if e.next_try <= now {
            sel.push(i);
            if e.tries > max_tries {
                max_tries = e.tries;
            }
        }
        i = i + 1;
    }
    assert(entries@.take(i as int) =~= entries@);
    (sel, max_tries)
}

/// How long a resubscribe batch may take: a base plus one second per
/// failure of its worst member.
pub fn resub_timeout_secs(max_tries: u64) -> (r: u64)
    ensures
        r == sat_add(RESUB_TIMEOUT_BASE_SECS as nat, max_tries as nat),
{
    sat_add_u64(RESUB_TIMEOUT_BASE_SECS, max_tries)
}

/// When the scheduler should next wake with nothing due: shortly after the
/// earliest retry time, or never when nothing is dead.
pub fn next_wake(entries: &Vec<Backoff>) -> (r: Option<u64>)
    ensures
        r == match earliest_spec(entries@) {
            None => None::<u64>,
            Some(m) => Some(sat_add(m as nat, WAKE_SLACK_MS as nat)),
        },
{
    let mut best: Option<u64> = None;
    let mut i: usize = 0;
    while i < entries.len()
        invariant
            i <= entries@.len(),
            best == earliest_spec(entries@.take(i as int)),
        decreases entries.len() - i,
    {
        proof {
            assert(entries@.take(i + 1).drop_last() =~= entries@.take(i as int));
        }
        let t = entries[i].next_try;
        best = match best {
            None => Some(t),
            Some(m) => if t < m {
                Some(t)
            } else {
                Some(m)
            },
        };
        i = i + 1;
    }
    assert(entries@.take(i as int) =~= entries@);
    match best {
        None => None,
        Some(m) => Some(sat_add_u64(m, WAKE_SLACK_MS)),
    }
}

} // verus!
