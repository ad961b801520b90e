//! Who owns the state of a handle, and which run a request to cancel reaches.
//!
//! Mutable solver state is moved out of the handle for the duration of a run.  Claiming a
//! run and publishing its cancellation token are one step, so a request to cancel either
//! comes before the run or reaches it.

use crate::error::{Complaint, TheseusError};
use vstd::prelude::*;

verus! {

/// The token of the run in progress.
#[derive(Debug, Clone, Copy, PartialEq, Eq, Structural)]
pub struct ActiveCancel {
    pub run: u64,
    pub scope: Option<u64>,
    pub cancelled: bool,
}

/// A scope that was reserved for a run that has not started.
#[derive(Debug, Clone, Copy, PartialEq, Eq, Structural)]
pub struct PendingCancelScope {
    pub id: u64,
    pub cancelled: bool,
}

/// The state of a handle while no run owns it, and the cancellation tokens.
#[derive(Debug)]
pub struct HandleLifecycle<S> {
    pub state: Option<S>,
    pub active_cancel: Option<ActiveCancel>,
    pub pending_cancel_scope: Option<PendingCancelScope>,
    pub next_cancel_scope: u64,
    pub next_run: u64,
}

/// A run, which owns the state until it ends.
#[derive(Debug)]
pub struct ActiveRun<S> {
    pub run: u64,
    pub state: S,
}

/// All of a lifecycle but the state itself.
pub ghost struct Tokens {
    pub idle: bool,
    pub active: Option<ActiveCancel>,
    pub pending: Option<PendingCancelScope>,
    pub next_scope: u64,
    pub next_run: u64,
}

impl<S> View for HandleLifecycle<S> {
    type V = Tokens;

    open spec fn view(&self) -> Tokens {
        Tokens {
            idle: self.state is Some,
            active: self.active_cancel,
            pending: self.pending_cancel_scope,
            next_scope: self.next_cancel_scope,
            next_run: self.next_run,
        }
    }
}

/// The number that follows `n`; zero is left out.
pub open spec fn successor(n: u64) -> u64 {
    if n == u64::MAX {
        1
    } else {
        (n + 1) as u64
    }
}

impl Tokens {
    /// A token is published only while a run owns the state, a scope is pending only while
    /// none does, and scopes are not zero.
    pub open spec fn wf(self) -> bool {
        &&& self.active is Some ==> !self.idle
        &&& self.pending is Some ==> self.idle
        &&& self.next_scope != 0
        &&& self.pending matches Some(p) ==> p.id != 0
    }

    /// The tokens of a new handle.
    pub open spec fn created() -> Tokens {
        Tokens { idle: true, active: None, pending: None, next_scope: 1, next_run: 1 }
    }

    /// Whether a run, in a scope or not, is refused, and why.
    pub open spec fn refusal(self, scope: Option<u64>) -> Option<Complaint> {
        match (scope, self.pending) {
            (Some(id), None) => Some(Complaint::NoPendingScope),
            (Some(id), Some(p)) if p.id != id => Some(Complaint::ScopeMismatch),
            (None, Some(_)) => Some(Complaint::ScopedSolvePending),
            _ => if self.idle {
                None
            } else {
                Some(Complaint::AlreadyRunning)
            },
        }
    }

    /// The tokens once a run has been asked for.  A scoped run takes the pending scope with
    /// it, even where it is refused because another run is in progress.
    pub open spec fn begun(self, scope: Option<u64>) -> Tokens {
        match self.refusal(scope) {
            None => Tokens {
                idle: false,
                active: Some(
                    ActiveCancel {
                        run: self.next_run,
                        scope,
                        cancelled: match (scope, self.pending) {
                            (Some(_), Some(p)) => p.cancelled,
                            _ => false,
                        },
                    },
                ),
                pending: None,
                next_run: successor(self.next_run),
                ..self
            },
            Some(Complaint::AlreadyRunning) => if scope is Some {
                Tokens { pending: None, ..self }
            } else {
                self
            },
            Some(_) => self,
        }
    }

    /// The tokens once the run in progress has been told to stop.
    pub open spec fn cancelled(self) -> Tokens {
        match self.active {
            Some(a) => Tokens { active: Some(ActiveCancel { cancelled: true, ..a }), ..self },
            None => self,
        }
    }

    /// The tokens once the run in a scope, in progress or pending, has been told to stop.
    pub open spec fn scope_cancelled(self, id: u64) -> Tokens {
        match self.active {
            Some(a) if a.scope == Some(id) => self.cancelled(),
            _ => match self.pending {
                Some(p) if p.id == id => Tokens {
                    pending: Some(PendingCancelScope { cancelled: true, ..p }),
                    ..self
                },
                _ => self,
            },
        }
    }

    /// Whether a scope is refused, and why.
    pub open spec fn scope_refusal(self) -> Option<Complaint> {
        if !self.idle {
            Some(Complaint::AlreadyRunning)
        } else if self.pending is Some {
            Some(Complaint::ScopeAlreadyPending)
        } else {
            None
        }
    }

    /// The tokens once a scope has been reserved.
    pub open spec fn reserved(self) -> Tokens {
        if self.scope_refusal() is Some {
            self
        } else {
            Tokens {
                pending: Some(PendingCancelScope { id: self.next_scope, cancelled: false }),
                next_scope: successor(self.next_scope),
                ..self
            }
        }
    }

    /// The tokens once a scope has been completed.
    pub open spec fn completed(self, id: u64) -> Tokens {
        match self.pending {
            Some(p) if p.id == id => Tokens { pending: None, ..self },
            _ => self,
        }
    }

    /// Whether run `run` has been told to stop.
    pub open spec fn stopped(self, run: u64) -> bool {
        self.active matches Some(a) && a.run == run && a.cancelled
    }

    /// The tokens once the token of run `run` has been withdrawn.
    pub open spec fn withdrawn(self, run: u64) -> Tokens {
        match self.active {
            Some(a) if a.run == run => Tokens { active: None, ..self },
            _ => self,
        }
    }

    /// The tokens once run `run` has closed its cancellation window: a run that was told to
    /// stop keeps its token.
    pub open spec fn window_closed(self, run: u64) -> Tokens {
        if self.stopped(run) {
            self
        } else {
            self.withdrawn(run)
        }
    }

    /// The tokens once run `run` has ended and given the state back.
    pub open spec fn ended(self, run: u64) -> Tokens {
        Tokens { idle: true, ..self.withdrawn(run) }
    }
}

impl<S> HandleLifecycle<S> {
    /// The lifecycle of a new handle.
    pub fn new(state: S) -> (r: HandleLifecycle<S>)
        ensures
            r@ == Tokens::created(),
            r@.wf(),
            r.state == Some(state),
    {
        HandleLifecycle {
            state: Some(state),
            active_cancel: None,
            pending_cancel_scope: None,
            next_cancel_scope: 1,
            next_run: 1,
        }
    }

    /// The state, unless a run owns it.
    pub fn require_state(&self) -> (r: Result<&S, TheseusError>)
        ensures
            match self.state {
                Some(s) => r == Ok::<_, TheseusError>(&s),
                None => r == Err::<&S, _>(TheseusError::Solver(Complaint::HandleBusy)),
            },
    {
        match &self.state {
            Some(s) => Ok(s),
            None => Err(TheseusError::Solver(Complaint::HandleBusy)),
        }
    }

    /// Starts a run in a scope, or in none.
    fn begin_run_internal(&mut self, scope: Option<u64>) -> (r: Result<ActiveRun<S>, TheseusError>)
        requires
            old(self)@.wf(),
        ensures
            final(self)@ == old(self)@.begun(scope),
            final(self)@.wf(),
            match old(self)@.refusal(scope) {
                None => {
                    &&& r matches Ok(run)
                    &&& old(self).state == Some(r->Ok_0.state)
                    &&& r->Ok_0.run == old(self).next_run
                    &&& final(self).state is None
                },
                Some(c) => {
                    &&& r == Err::<ActiveRun<S>, _>(TheseusError::Solver(c))
                    &&& final(self).state == old(self).state
                },
            },
    {
        let mut cancelled = false;
        match scope {
            Some(id) => {
                match self.pending_cancel_scope {
                    None => {
                        return Err(TheseusError::Solver(Complaint::NoPendingScope));
                    },
                    Some(pending) => {
                        if pending.id != id {
                            return Err(TheseusError::Solver(Complaint::ScopeMismatch));
                        }
                        cancelled = pending.cancelled;
                        self.pending_cancel_scope = None;
                    },
                }
            },
            None => {
                if self.pending_cancel_scope.is_some() {
                    return Err(TheseusError::Solver(Complaint::ScopedSolvePending));
                }
            },
        }
        match self.state.take() {
            None => Err(TheseusError::Solver(Complaint::AlreadyRunning)),
            Some(state) => {
                let run: u64 = self.next_run;
                self.next_run = if run == u64::MAX {
                    1
                } else {
                    run + 1
                };
                self.active_cancel = Some(ActiveCancel { run, scope, cancelled });
                Ok(ActiveRun { run, state })
            },
        }
    }

    /// Starts a run.
    pub fn begin_run(&mut self) -> (r: Result<ActiveRun<S>, TheseusError>)
        requires
            old(self)@.wf(),
        ensures
            final(self)@ == old(self)@.begun(None),
            final(self)@.wf(),
            match old(self)@.refusal(None) {
                None => {
                    &&& r matches Ok(run)
                    &&& old(self).state == Some(r->Ok_0.state)
                    &&& r->Ok_0.run == old(self).next_run
                    &&& final(self).state is None
                },
                Some(c) => {
                    &&& r == Err::<ActiveRun<S>, _>(TheseusError::Solver(c))
                    &&& final(self).state == old(self).state
                },
            },
    {
        self.begin_run_internal(None)
    }

    /// Starts the run that a scope was reserved for.
    pub fn begin_scoped_run(&mut self, scope_id: u64) -> (r: Result<ActiveRun<S>, TheseusError>)
        requires
            old(self)@.wf(),
        ensures
            final(self)@ == old(self)@.begun(Some(scope_id)),
            final(self)@.wf(),
            match old(self)@.refusal(Some(scope_id)) {
                None => {
                    &&& r matches Ok(run)
                    &&& old(self).state == Some(r->Ok_0.state)
                    &&& r->Ok_0.run == old(self).next_run
                    &&& final(self).state is None
                },
                Some(c) => {
                    &&& r == Err::<ActiveRun<S>, _>(TheseusError::Solver(c))
                    &&& final(self).state == old(self).state
                },
            },
    {
        self.begin_run_internal(Some(scope_id))
    }

    /// Whether run `run` has been told to stop.
    pub fn is_cancelled(&self, run: u64) -> (r: bool)
        ensures
            r == self@.stopped(run),
    {
        match self.active_cancel {
            Some(a) => a.run == run && a.cancelled,
            None => false,
        }
    }

    /// Closes the cancellation window of a run: a request to cancel either came before, or
    /// reaches nothing any more.
    pub fn finish_cancellation_window(&mut self, run: u64) -> (r: Result<(), TheseusError>)
        requires
            old(self)@.wf(),
        ensures
            final(self)@ == old(self)@.window_closed(run),
            final(self)@.wf(),
            final(self).state == old(self).state,
            if old(self)@.stopped(run) {
                r == Err::<(), _>(TheseusError::Cancelled)
            } else {
                r == Ok::<(), TheseusError>(())
            },
    {
        match self.active_cancel {
            Some(a) => {
                if a.run == run {
                    if a.cancelled {
                        return Err(TheseusError::Cancelled);
                    }
                    self.active_cancel = None;
                }
                Ok(())
            },
            None => Ok(()),
        }
    }

    /// Ends a run: its token is withdrawn and the state goes back to the handle.
    pub fn end_run(&mut self, run: ActiveRun<S>)
        requires
            old(self)@.wf(),
            old(self)@.active matches Some(a) ==> a.run == run.run,
        ensures
            final(self)@ == old(self)@.ended(run.run),
            final(self)@.wf(),
            final(self).state == Some(run.state),
    {
        match self.active_cancel {
            Some(a) => {
                if a.run == run.run {
                    self.active_cancel = None;
                }
            },
            None => {},
        }
        self.state = Some(run.state);
    }

    /// Tells the run in progress to stop, if there is one.
    pub fn request_cancel(&mut self)
        requires
            old(self)@.wf(),
        ensures
            final(self)@ == old(self)@.cancelled(),
            final(self)@.wf(),
            final(self).state == old(self).state,
    {
        match self.active_cancel {
            Some(a) => {
                self.active_cancel = Some(
                    ActiveCancel { run: a.run, scope: a.scope, cancelled: true },
                );
            },
            None => {},
        }
    }

    /// Reserves a scope for one imminent run.
    pub fn reserve_cancel_scope(&mut self) -> (r: Result<u64, TheseusError>)
        requires
            old(self)@.wf(),
        ensures
            final(self)@ == old(self)@.reserved(),
            final(self)@.wf(),
            final(self).state == old(self).state,
            match old(self)@.scope_refusal() {
                None => r == Ok::<u64, TheseusError>(old(self).next_cancel_scope),
                Some(c) => r == Err::<u64, _>(TheseusError::Solver(c)),
            },
    {
        if self.state.is_none() {
            return Err(TheseusError::Solver(Complaint::AlreadyRunning));
        }
        if self.pending_cancel_scope.is_some() {
            return Err(TheseusError::Solver(Complaint::ScopeAlreadyPending));
        }
        let id: u64 = self.next_cancel_scope;
        self.next_cancel_scope = if id == u64::MAX {
            1
        } else {
            id + 1
        };
        self.pending_cancel_scope = Some(PendingCancelScope { id, cancelled: false });
        Ok(id)
    }

    /// Tells the run in a scope to stop, whether it is in progress or pending.
    pub fn request_scoped_cancel(&mut self, scope_id: u64)
        requires
            old(self)@.wf(),
        ensures
            final(self)@ == old(self)@.scope_cancelled(scope_id),
            final(self)@.wf(),
            final(self).state == old(self).state,
    {
        match self.active_cancel {
            Some(a) => {
                match a.scope {
                    Some(id) => {
                        if id == scope_id {
                            self.request_cancel();
                            return;
                        }
                    },
                    None => {},
                }
            },
            None => {},
        }
        match self.pending_cancel_scope {
            Some(p) => {
                if p.id == scope_id {
                    self.pending_cancel_scope = Some(
                        PendingCancelScope { id: p.id, cancelled: true },
                    );
                }
            },
            None => {},
        }
    }

    /// Discards a scope whose run has not started.
    pub fn complete_cancel_scope(&mut self, scope_id: u64)
        requires
            old(self)@.wf(),
        ensures
            final(self)@ == old(self)@.completed(scope_id),
            final(self)@.wf(),
            final(self).state == old(self).state,
    {
        match self.pending_cancel_scope {
            Some(p) => {
                if p.id == scope_id {
                    self.pending_cancel_scope = None;
                }
            },
            None => {},
        }
    }
}

/// A request to cancel that comes before the run of its scope starts is found by that run.
pub proof fn early_cancel_is_found(t: Tokens)
    requires
        t.wf(),
        t.scope_refusal() is None,
    ensures
        ({
            let id = t.next_scope;
            let started = t.reserved().scope_cancelled(id).begun(Some(id));
            &&& t.reserved().scope_cancelled(id).refusal(Some(id)) is None
            &&& started.stopped(t.next_run)
        }),
{
}

/// A request to cancel that was meant for one scope is not found by the run after it.
pub proof fn cancel_does_not_outlive_its_run(t: Tokens)
    requires
        t.wf(),
        t.scope_refusal() is None,
    ensures
        ({
            let id = t.next_scope;
            let after = t.reserved().scope_cancelled(id).begun(Some(id)).ended(t.next_run);
            &&& after.refusal(None) is None
            &&& !after.begun(None).stopped(after.next_run)
            &&& after.scope_refusal() is None
            &&& !after.reserved().begun(Some(after.next_scope)).stopped(after.next_run)
        }),
{
}

/// A request to cancel reaches the run in progress, by itself or by its scope.
pub proof fn cancel_reaches_the_run_in_progress(t: Tokens, scope: Option<u64>)
    requires
        t.wf(),
        t.refusal(scope) is None,
    ensures
        t.begun(scope).cancelled().stopped(t.next_run),
        scope matches Some(id) ==> t.begun(scope).scope_cancelled(id).stopped(t.next_run),
{
}

/// A request to cancel that comes when a run has closed its window, or has ended, changes
/// nothing, so that it cannot reach the next run.
pub proof fn late_cancel_reaches_nothing(t: Tokens, scope: Option<u64>)
    requires
        t.wf(),
        t.refusal(scope) is None,
    ensures
        ({
            let closed = t.begun(scope).window_closed(t.next_run);
            let open = t.begun(scope).stopped(t.next_run);
            &&& !open ==> closed.cancelled() == closed
            &&& !open ==> (scope matches Some(id) ==> closed.scope_cancelled(id) == closed)
            &&& t.begun(scope).ended(t.next_run).cancelled() == t.begun(scope).ended(t.next_run)
        }),
{
}

/// Completing a scope whose run has not started clears a request to cancel it.
pub proof fn completing_clears_the_request(t: Tokens)
    requires
        t.wf(),
        t.scope_refusal() is None,
    ensures
        ({
            let id = t.next_scope;
            let after = t.reserved().scope_cancelled(id).completed(id);
            &&& after.pending is None
            &&& after.refusal(None) is None
            &&& !after.begun(None).stopped(after.next_run)
        }),
{
}

/// While a run is in progress, no other starts and no scope can be reserved.
pub proof fn one_run_at_a_time(t: Tokens, scope: Option<u64>, other: Option<u64>)
    requires
        t.wf(),
        t.refusal(scope) is None,
    ensures
        t.begun(scope).refusal(other) is Some,
        t.begun(scope).scope_refusal() is Some,
{
}

/// A scope has another number than the one that was reserved before it.
pub proof fn scopes_differ(t: Tokens)
    requires
        t.wf(),
        t.scope_refusal() is None,
    ensures
        t.reserved().next_scope != t.next_scope,
        t.reserved().next_scope != 0,
{
}

/// A run begins if and only if the handle is idle and the scope it asks for, or none, is
/// what is pending.
pub proof fn a_run_begins_with_the_pending_scope(t: Tokens, scope: Option<u64>)
    requires
        t.wf(),
    ensures
        t.refusal(scope) is None <==> t.idle && match t.pending {
            None => scope is None,
            Some(p) => scope == Some(p.id),
        },
        t.refusal(scope) is None ==> {
            let after = t.begun(scope);
            &&& after.pending is None
            &&& !after.idle
            &&& after.active == Some(
                ActiveCancel {
                    run: t.next_run,
                    scope,
                    cancelled: t.pending is Some && t.pending->0.cancelled,
                },
            )
        },
        t.refusal(scope) == Some(Complaint::ScopeMismatch) ==> t.begun(scope) == t,
{
}

} // verus!
