//! The per-path bookkeeping of one subscribe call: each requested path, in
//! input order, moves from its first-phase decision through resolution to
//! a subscription in flight, a handle, or an error. `R` is what a caller
//! awaits an outcome on; `V` is a handle.

use vstd::prelude::*;
use crate::registry::DedupAction;
use crate::value::SubError;

verus! {

pub enum Phase<R, V> {
    /// To be resolved and subscribed by this call.
    Resolve,
    /// A subscribe request is in flight on a connection.
    Subscribing(R),
    /// Another call is subscribing this path.
    WaitingOther(R),
    Subscribed(V),
    Failed(SubError),
}

/// The phase a path starts in, after the first phase of a subscribe.
pub open spec fn begin_spec<R, V>(action: DedupAction, waiter: R, existing: Option<V>) -> Phase<R, V> {
    match action {
        DedupAction::Resolve => Phase::Resolve,
        DedupAction::WaitOther => Phase::WaitingOther(waiter),
        DedupAction::Existing => match existing {
            Some(v) => Phase::Subscribed(v),
            None => Phase::Failed(SubError::ConnectionDied),
        },
    }
}

/// Positions of the paths still to be resolved, in order.
pub open spec fn resolve_positions<R, V>(s: Seq<Phase<R, V>>) -> Seq<usize>
    decreases s.len(),
{
    if s.len() == 0 {
        Seq::empty()
    } else if s.last() is Resolve {
        resolve_positions(s.drop_last()).push((s.len() - 1) as usize)
    } else {
        resolve_positions(s.drop_last())
    }
}

/// `s` with every path still to be resolved failed with `e`.
pub open spec fn fail_unresolved<R, V>(s: Seq<Phase<R, V>>, e: SubError) -> Seq<Phase<R, V>> {
    Seq::new(s.len(), |i: int| if s[i] is Resolve { Phase::Failed(e) } else { s[i] })
}

/// The error a failed resolution gives each of its paths.
pub open spec fn resolve_error(timed_out: bool) -> SubError {
    if timed_out {
        SubError::TimedOut
    } else {
        SubError::ResolveFailed
    }
}

pub struct SubscribeBatch<R, V> {
    phases: Vec<Phase<R, V>>,
}

impl<R, V> SubscribeBatch<R, V> {
    pub closed spec fn phases_v(&self) -> Seq<Phase<R, V>> {
        self.phases@
    }

    pub fn new() -> (r: SubscribeBatch<R, V>)
        ensures
            r.phases_v() == Seq::<Phase<R, V>>::empty(),
    {
        SubscribeBatch { phases: Vec::new() }
    }

    /// Record the next path's first-phase decision: its waiter when it
    /// waits on another call, the live handle when it is subscribed.
    pub fn begin(&mut self, action: DedupAction, waiter: R, existing: Option<V>)
        ensures
            final(self).phases_v() == old(self).phases_v().push(begin_spec(action, waiter, existing)),
    {
        let p = match action {
            DedupAction::Resolve => Phase::Resolve,
            DedupAction::WaitOther => Phase::WaitingOther(waiter),
            DedupAction::Existing => match existing {
                Some(v) => Phase::Subscribed(v),
                None => Phase::Failed(SubError::ConnectionDied),
            },
        };
        self.phases.push(p);
    }

    /// Positions of the paths to resolve, in input order.
    pub fn to_resolve(&self) -> (r: Vec<usize>)
        ensures
            r@ == resolve_positions(self.phases_v()),
    {
        let mut r: Vec<usize> = Vec::new();
        let mut i: usize = 0;
        while i < self.phases.len()
            invariant
                i <= self.phases@.len(),
                r@ == resolve_positions(self.phases@.take(i as int)),
            decreases self.phases.len() - i,
        {
            proof {
                assert(self.phases@.take(i + 1).drop_last() =~= self.phases@.take(i as int));
            }
            if let Phase::Resolve = &self.phases[i] {
                r.push(i);
            }
            i = i + 1;
        }
        assert(self.phases@.take(i as int) =~= self.phases@);
        r
    }

    fn fail_all_unresolved(&mut self, e: SubError)
        ensures
            final(self).phases_v() == fail_unresolved(old(self).phases_v(), e),
    {
        let ghost s0 = self.phases@;
        let mut i: usize = 0;
        while i < self.phases.len()
            invariant
                i <= self.phases@.len(),
                self.phases@.len() == s0.len(),
                forall|j: int| 0 <= j < i ==> #[trigger] self.phases@[j] == fail_unresolved(s0, e)[j],
                forall|j: int| i <= j < s0.len() ==> #[trigger] self.phases@[j] == s0[j],
            decreases self.phases.len() - i,
        {
            if let Phase::Resolve = &self.phases[i] {
                self.phases.set(i, Phase::Failed(e));
            }
            i = i + 1;
        }
        assert(self.phases@ =~= fail_unresolved(s0, e));
    }

    /// The resolver failed, or timed out: every path to resolve fails.
    pub fn resolve_failed(&mut self, timed_out: bool)
        ensures
            final(self).phases_v() == fail_unresolved(old(self).phases_v(), resolve_error(timed_out)),
    {
        let e = if timed_out {
            SubError::TimedOut
        } else {
            SubError::ResolveFailed
        };
        self.fail_all_unresolved(e);
    }

    /// Path `i` was resolved: its subscribe request went out (`Ok`, with
    /// what its outcome arrives on), or it could not (`Err`). A path not
    /// waiting for resolution is left alone.
    pub fn resolved(&mut self, i: usize, outcome: Result<R, SubError>)
        requires
            i < old(self).phases_v().len(),
        ensures
            old(self).phases_v()[i as int] is Resolve ==> final(self).phases_v() == old(
                self,
            ).phases_v().update(
                i as int,
                match outcome {
                    Ok(r) => Phase::Subscribing(r),
                    Err(e) => Phase::Failed(e),
                },
            ),
            !(old(self).phases_v()[i as int] is Resolve) ==> final(self).phases_v() == old(
                self,
            ).phases_v(),
    {
        if let Phase::Resolve = &self.phases[i] {
            let p = match outcome {
                Ok(r) => Phase::Subscribing(r),
                Err(e) => Phase::Failed(e),
            };
            self.phases.set(i, p);
        }
    }

    /// The phases in input order, ready to be awaited. A path the resolver
    /// gave no answer for fails as unresolved.
    pub fn into_phases(self) -> (r: Vec<Phase<R, V>>)
        ensures
            r@ == fail_unresolved(self.phases_v(), SubError::ResolveFailed),
    {
        let mut b = self;
        b.fail_all_unresolved(SubError::ResolveFailed);
        b.phases
    }
}

} // verus!
