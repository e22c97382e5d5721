//! Process-level failure policy: every way a run can fail is classified, and
//! each class maps to its own exit code so that operators can script on the
//! failure class alone.

use vstd::prelude::*;
use crate::addr::SocketAddress;

verus! {

/// Everything that can terminate a run abnormally, from startup (socket
/// initialisation, local-address lookup) through the forwarding phase
/// (worker crash, receive failure, a failed write in either output mode).
#[derive(Clone, Copy, Debug, PartialEq, Eq, Structural)]
pub enum FailureClass {
    SocketInit,
    LocalLookup,
    WorkerPanic,
    Receive,
    BinaryWrite,
    TextWrite,
}

/// The exit code reserved for each failure class.
pub open spec fn exit_code_spec(c: FailureClass) -> int {
    match c {
        FailureClass::SocketInit => 1,
        FailureClass::LocalLookup => 2,
        FailureClass::WorkerPanic => 3,
        FailureClass::Receive => 4,
        FailureClass::BinaryWrite => 5,
        FailureClass::TextWrite => 6,
    }
}

/// The process exit code for a failure: nonzero, and distinct per class
/// (see `lemma_exit_codes_distinct`).
pub fn exit_code(c: FailureClass) -> (r: i32)
    ensures
        r as int == exit_code_spec(c),
        r != 0,
{
    match c {
        FailureClass::SocketInit => 1,
        FailureClass::LocalLookup => 2,
        FailureClass::WorkerPanic => 3,
        FailureClass::Receive => 4,
        FailureClass::BinaryWrite => 5,
        FailureClass::TextWrite => 6,
    }
}

/// Distinct failure classes never share an exit code, so the code alone
/// identifies the failure class.
pub proof fn lemma_exit_codes_distinct(a: FailureClass, b: FailureClass)
    ensures
        a != b ==> exit_code_spec(a) != exit_code_spec(b),
{
}

/// The bind phase for an ordered set of requested addresses. Addresses are
/// bound in request order; on the first failure the whole set is abandoned
/// and every socket already bound is released, so that either all requested
/// sockets are live or none is.
pub struct SocketSet {
    requested: Vec<SocketAddress>,
    bound: Vec<SocketAddress>,
    failed: bool,
}

impl SocketSet {
    /// The addresses asked for, in request order.
    pub closed spec fn requested_seq(&self) -> Seq<SocketAddress> {
        self.requested@
    }

    /// The OS-reported local addresses of the sockets bound so far, in
    /// request order — the correspondence request[k] to bound[k] is what a
    /// diagnostic report shows.
    pub closed spec fn bound_seq(&self) -> Seq<SocketAddress> {
        self.bound@
    }

    /// Whether a bind has failed and the set was abandoned.
    pub closed spec fn has_failed(&self) -> bool {
        self.failed
    }

    pub open spec fn wf(&self) -> bool {
        self.bound_seq().len() <= self.requested_seq().len()
    }

    pub fn new(requested: Vec<SocketAddress>) -> (r: SocketSet)
        ensures
            r.wf(),
            r.requested_seq() == requested@,
            r.bound_seq().len() == 0,
            !r.has_failed(),
    {
        SocketSet { requested, bound: Vec::new(), failed: false }
    }

    /// The next address to bind, in request order, or `None` when every
    /// requested address has been bound.
    pub fn next_request(&self) -> (r: Option<&SocketAddress>)
        requires
            self.wf(),
        ensures
            r matches Some(a) ==> self.bound_seq().len() < self.requested_seq().len() && *a
                == self.requested_seq()[self.bound_seq().len() as int],
            r is None ==> self.bound_seq().len() == self.requested_seq().len(),
    {
        if self.bound.len() < self.requested.len() {
            Some(&self.requested[self.bound.len()])
        } else {
            None
        }
    }

    /// Records one successful bind: the OS-reported local address joins the
    /// set, preserving request order.
    pub fn record_bound(&mut self, local: SocketAddress)
        requires
            old(self).wf(),
            old(self).bound_seq().len() < old(self).requested_seq().len(),
            !old(self).has_failed(),
        ensures
            final(self).wf(),
            final(self).requested_seq() == old(self).requested_seq(),
            final(self).bound_seq() == old(self).bound_seq().push(local),
            !final(self).has_failed(),
    {
        self.bound.push(local);
    }

    /// Records a bind failure: the set is abandoned with a single error, and
    /// the count handed back says how many already-bound sockets the caller
    /// must release — all of them, so no partial deployment stays behind and
    /// zero sockets remain open.
    pub fn record_failure(&mut self) -> (release: usize)
        requires
            old(self).wf(),
        ensures
            final(self).wf(),
            final(self).has_failed(),
            release == old(self).bound_seq().len(),
            final(self).bound_seq().len() == 0,
            final(self).requested_seq() == old(self).requested_seq(),
    {
        let release = self.bound.len();
        self.bound = Vec::new();
        self.failed = true;
        release
    }

    /// Whether every requested address is live.
    pub fn fully_bound(&self) -> (r: bool)
        ensures
            r == (self.bound_seq().len() == self.requested_seq().len() && !self.has_failed()),
    {
        self.bound.len() == self.requested.len() && !self.failed
    }

    /// The bound local addresses, in request order.
    pub fn bindings(&self) -> (r: &Vec<SocketAddress>)
        ensures
            r@ == self.bound_seq(),
    {
        &self.bound
    }
}

/// How the forwarding phase runs: a single bound socket is served inline on
/// the calling thread against a pre-locked stream, more than one (or none)
/// gets one concurrent worker per socket.
#[derive(Clone, Copy, Debug, PartialEq, Eq, Structural)]
pub enum RunPlan {
    Inline,
    Spawn { workers: usize },
}

/// The supervisor's choice between the single-socket fast path and the
/// concurrent path — a pure performance branch with no semantic difference.
pub fn plan_run(bound_count: usize) -> (r: RunPlan)
    ensures
        bound_count == 1 ==> r == RunPlan::Inline,
        bound_count != 1 ==> r == (RunPlan::Spawn { workers: bound_count }),
{
    if bound_count == 1 {
        RunPlan::Inline
    } else {
        RunPlan::Spawn { workers: bound_count }
    }
}

} // verus!
