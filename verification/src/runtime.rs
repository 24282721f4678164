//! Listener and orchestrator decisions: the per-listener state
//! machine (bind, accept, dispatch, terminate) and the launch plan
//! the orchestrator derives from the configured port sets. The
//! caller binds sockets, accepts connections and spawns tasks; these
//! functions decide what it must do next.

use crate::ports::PortSet;
use vstd::prelude::*;

verus! {

/// The three protocols the service listens on.
#[derive(Clone, Copy, PartialEq, Eq, Structural, Debug)]
pub enum Protocol {
    Tcp,
    Udp,
    Http,
}

/// One listener to launch: a protocol and the port it binds on the
/// wildcard address (every listener binds all interfaces).
#[derive(Clone, Copy, PartialEq, Eq, Structural, Debug)]
pub struct ListenerSpec {
    pub protocol: Protocol,
    pub port: u16,
}

/// A listener's lifecycle states.
#[derive(Clone, Copy, PartialEq, Eq, Structural, Debug)]
pub enum ListenerState {
    /// Trying to bind its address.
    Binding,
    /// Bound; accepting and dispatching units of work.
    Serving,
    /// Stopped; reached on a failed bind or process shutdown.
    Terminated,
}

/// What a listener observes.
#[derive(Clone, Copy, PartialEq, Eq, Structural, Debug)]
pub enum ListenerEvent {
    /// The bind succeeded.
    BindOk,
    /// The bind failed (address in use, permission denied, ...).
    BindFailed,
    /// A connection or datagram arrived.
    Accepted,
    /// The accept or receive itself failed transiently.
    AcceptError,
    /// A previously spawned handler ended in an I/O error.
    HandlerFailed,
    /// Process-wide shutdown was requested.
    Shutdown,
}

/// What the runtime must do in reaction.
#[derive(Clone, Copy, PartialEq, Eq, Structural, Debug)]
pub enum ListenerAction {
    /// Start the accept loop.
    StartServing,
    /// Report the failure attributed to this listener and stop it;
    /// sibling listeners keep running.
    ReportAndStop,
    /// Spawn an isolated handler for the arrived unit of work and
    /// return to accepting at once, without awaiting the handler.
    SpawnHandler,
    /// Log the transient failure and keep accepting.
    LogAndContinue,
    /// Do nothing; the event concerns no one else.
    Ignore,
    /// Stop the listener.
    Stop,
}

/// One step of the listener state machine.
///
/// Bind failure stops only this listener, which is reported while
/// the rest of the process continues. A transient accept error never
/// leaves the serving state, and a handler's failure is contained:
/// it neither stops the listener nor reaches any sibling. Only a
/// failed bind or process shutdown terminates a listener.
pub fn listener_step(state: &ListenerState, event: &ListenerEvent) -> (r: (
    ListenerState,
    ListenerAction,
))
    ensures
        event is Shutdown ==> r.0 is Terminated && r.1 is Stop,
        state is Binding && event is BindOk ==> r.0 is Serving && r.1 is StartServing,
        state is Binding && event is BindFailed ==> r.0 is Terminated && r.1 is ReportAndStop,
        state is Serving && event is Accepted ==> r.0 is Serving && r.1 is SpawnHandler,
        state is Serving && event is AcceptError ==> r.0 is Serving && r.1 is LogAndContinue,
        state is Serving && event is HandlerFailed ==> r.0 is Serving && r.1 is Ignore,
        state is Terminated ==> r.0 is Terminated,
        !(event is BindFailed || event is Shutdown) && !(state is Terminated) ==> !(r.0
            is Terminated),
{
    match (state, event) {
        (_, ListenerEvent::Shutdown) => (ListenerState::Terminated, ListenerAction::Stop),
        (ListenerState::Binding, ListenerEvent::BindOk) => (
            ListenerState::Serving,
            ListenerAction::StartServing,
        ),
        (ListenerState::Binding, ListenerEvent::BindFailed) => (
            ListenerState::Terminated,
            ListenerAction::ReportAndStop,
        ),
        (ListenerState::Serving, ListenerEvent::Accepted) => (
            ListenerState::Serving,
            ListenerAction::SpawnHandler,
        ),
        (ListenerState::Serving, ListenerEvent::AcceptError) => (
            ListenerState::Serving,
            ListenerAction::LogAndContinue,
        ),
        (ListenerState::Serving, ListenerEvent::HandlerFailed) => (
            ListenerState::Serving,
            ListenerAction::Ignore,
        ),
        (ListenerState::Terminated, _) => (ListenerState::Terminated, ListenerAction::Ignore),
        _ => (ListenerState::Binding, ListenerAction::Ignore),
    }
}

/// The launch plan: one listener per configured port per protocol,
/// TCP first, then UDP, then HTTP, exactly in the sets' order.
pub open spec fn spec_plan(tcp: Seq<u16>, udp: Seq<u16>, http: Seq<u16>) -> Seq<ListenerSpec> {
    tcp.map_values(|p: u16| ListenerSpec { protocol: Protocol::Tcp, port: p }) + udp.map_values(
        |p: u16| ListenerSpec { protocol: Protocol::Udp, port: p },
    ) + http.map_values(|p: u16| ListenerSpec { protocol: Protocol::Http, port: p })
}

/// Expands the three configured port sets into the listeners to
/// launch, one per (protocol, port) pair.
pub fn plan_listeners(tcp: &PortSet, udp: &PortSet, http: &PortSet) -> (plan: Vec<ListenerSpec>)
    ensures
        plan@ == spec_plan(tcp@, udp@, http@),
        plan@.len() == tcp@.len() + udp@.len() + http@.len(),
{
    let mut plan: Vec<ListenerSpec> = Vec::new();
    push_protocol(&mut plan, tcp, Protocol::Tcp);
    push_protocol(&mut plan, udp, Protocol::Udp);
    push_protocol(&mut plan, http, Protocol::Http);
    proof {
        assert(plan@ =~= spec_plan(tcp@, udp@, http@));
    }
    plan
}

/// Appends one listener per port of `ports`, all for `protocol`.
fn push_protocol(plan: &mut Vec<ListenerSpec>, ports: &PortSet, protocol: Protocol)
    ensures
        final(plan)@ == old(plan)@ + ports@.map_values(
            |p: u16| ListenerSpec { protocol, port: p },
        ),
{
    let v = ports.as_vec();
    let mut i: usize = 0;
    while i < v.len()
        invariant
            0 <= i <= v@.len(),
            v@ == ports@,
            plan@ == old(plan)@ + ports@.take(i as int).map_values(
                |p: u16| ListenerSpec { protocol, port: p },
            ),
        decreases v@.len() - i,
    {
        plan.push(ListenerSpec { protocol, port: v[i] });
        proof {
            assert(plan@ =~= old(plan)@ + ports@.take(i + 1).map_values(
                |p: u16| ListenerSpec { protocol, port: p },
            ));
        }
        i += 1;
    }
    proof {
        assert(ports@.take(ports@.len() as int) =~= ports@);
    }
}

/// Whether the orchestrator must wait for the shutdown signal: it
/// does exactly when at least one listener was launched; with none,
/// the process exits at once.
pub fn must_wait_for_shutdown(plan: &Vec<ListenerSpec>) -> (r: bool)
    ensures
        r == (plan@.len() > 0),
{
    plan.len() > 0
}

/// Whether the single-fire shutdown signal has resolved: it does the
/// first time either external interrupt — interactive interrupt or
/// termination request — is observed.
pub fn shutdown_resolved(interrupt: bool, terminate: bool) -> (r: bool)
    ensures
        r == (interrupt || terminate),
{
    interrupt || terminate
}

} // verus!
