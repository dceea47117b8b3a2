//! The executable engine: the lifecycle manager, the connection registry,
//! and the command surface.  Each operation performs exactly the spec-level
//! transition of the same name in the model module.
//!
//! The engine makes every decision but performs no I/O.  The surrounding
//! process binds the listener, runs the sockets, performs the returned
//! actions (enqueue a frame, enqueue a close) on the per-connection outbound
//! queues, delivers the returned events to the observer, and reports what
//! happened on the wire back into the engine.

use vstd::prelude::*;
use vstd::string::StringSliceAdditionalSpecFns;
use crate::address::SocketAddress;
use crate::error::ServerError;
use crate::messages::{
    close_opt_view, groups_view, pairs_view, Action, ActionModel, Client, ClientMessage,
    ClientModel, CloseFrame, ConnectMessage, Direction, DisconnectMessage, Event, MessageType,
    ServerStatus,
};
use crate::model::{
    find_conn, lemma_find_conn, spec_begin_start, spec_bind_failed, spec_bind_succeeded, spec_client_closed,
    spec_client_frame, spec_close_client, spec_send_text, spec_status, spec_stop,
    spec_stop_complete, spec_user_connected, EngineModel, LifecycleState,
};

verus! {

/// One registry entry: a connection's identifier and peer address.  The
/// outbound queue itself lives with the connection's writer task outside the
/// engine; the engine orders frames onto it through `Action` values.
#[derive(Clone, Copy, Debug, PartialEq, Eq, Structural)]
pub struct ClientConnection {
    pub identifier: usize,
    pub address: Option<SocketAddress>,
}

impl View for ClientConnection {
    type V = ClientModel;

    open spec fn view(&self) -> ClientModel {
        ClientModel { identifier: self.identifier as int, address: self.address }
    }
}

/// The server lifecycle and connection-relay engine: owns the lifecycle
/// state, the monotonic connection-identifier counter, and the registry of
/// live connections in acceptance order.
pub struct Engine {
    state: LifecycleState,
    next_id: usize,
    connections: Vec<ClientConnection>,
}

impl View for Engine {
    type V = EngineModel;

    closed spec fn view(&self) -> EngineModel {
        EngineModel {
            state: self.state,
            next_id: self.next_id as int,
            connections: self.connections@.map_values(|c: ClientConnection| c@),
        }
    }
}

impl Engine {
    /// Well-formedness of the engine's state; established by `new` and
    /// preserved by every operation.
    pub open spec fn wf(self) -> bool {
        self@.wf()
    }

    /// A fresh engine: no server, no connections, identifiers start at 1.
    pub fn new() -> (r: Engine)
        ensures
            r@ == EngineModel::init(),
            r.wf(),
    {
        let r = Engine { state: LifecycleState::NoServer, next_id: 1, connections: Vec::new() };
        proof {
            assert(r@.connections =~= Seq::<ClientModel>::empty());
        }
        r
    }

    /// The lifecycle status as an observer would be told it.
    pub fn status(&self) -> (s: ServerStatus)
        ensures
            s == spec_status(self@),
    {
        match &self.state {
            LifecycleState::NoServer => ServerStatus::Stopped,
            LifecycleState::Starting { .. } => ServerStatus::Starting,
            LifecycleState::Running { bound } => ServerStatus::Started { address: *bound },
            LifecycleState::Stopping => ServerStatus::Stopping,
        }
    }

    /// The next identifier a connection would be assigned.
    pub fn next_identifier(&self) -> (n: usize)
        ensures
            n as int == self@.next_id,
    {
        self.next_id
    }

    /// How many connections are registered.
    pub fn connection_count(&self) -> (n: usize)
        ensures
            n as int == self@.connections.len(),
    {
        self.connections.len()
    }

    /// The registered identifiers, in acceptance order.
    #[verifier::loop_isolation(false)]
    pub fn registered_identifiers(&self) -> (r: Vec<usize>)
        ensures
            r@.map_values(|u: usize| u as int) == self@.ids(),
    {
        let n = self.connections.len();
        let mut r: Vec<usize> = Vec::new();
        let mut i: usize = 0;
        while i < n
            invariant
                i <= n,
                r@.len() == i,
                forall|k: int| 0 <= k < i ==> #[trigger] r@[k] == self.connections@[k].identifier,
            decreases n - i,
        {
            r.push(self.connections[i].identifier);
            i = i + 1;
        }
        proof {
            assert(r@.map_values(|u: usize| u as int) =~= self@.ids());
        }
        r
    }

    /// Whether a connection with this identifier is registered.
    pub fn has_connection(&self, identifier: usize) -> (b: bool)
        ensures
            b == self@.has_conn(identifier as int),
    {
        self.find_index(identifier).is_some()
    }

    /// Index of the connection with this identifier in the registry.
    fn find_index(&self, identifier: usize) -> (r: Option<usize>)
        ensures
            match r {
                Some(i) => {
                    &&& find_conn(self@.connections, identifier as int) == i as int
                    &&& i < self.connections@.len()
                    &&& self.connections@[i as int].identifier == identifier
                },
                None => find_conn(self@.connections, identifier as int) == -1,
            },
    {
        proof {
            lemma_find_conn(self@.connections, identifier as int);
        }
        let n = self.connections.len();
        let mut i: usize = 0;
        while i < n
            invariant
                n == self.connections@.len(),
                i <= n,
                forall|j: int|
                    0 <= j < i ==> #[trigger] self.connections@[j].identifier != identifier,
            decreases n - i,
        {
            if self.connections[i].identifier == identifier {
                proof {
                    lemma_find_conn(self@.connections, identifier as int);
                    let f = find_conn(self@.connections, identifier as int);
                    assert(self@.connections[i as int].identifier == identifier as int);
                    if f == -1 {
                        assert(false);
                    } else if f < i as int {
                        assert(self.connections@[f].identifier != identifier);
                        assert(self@.connections[f].identifier == identifier as int);
                        assert(false);
                    } else if f > i as int {
                        assert(self@.connections[i as int].identifier != identifier as int);
                        assert(false);
                    }
                }
                return Some(i);
            }
            i = i + 1;
        }
        proof {
            lemma_find_conn(self@.connections, identifier as int);
            let f = find_conn(self@.connections, identifier as int);
            if f != -1 {
                assert(self.connections@[f].identifier != identifier);
                assert(self@.connections[f].identifier == identifier as int);
            }
        }
        None
    }

    /// Begin starting a server: validate the address string, reject it if a
    /// server already exists, and otherwise move to `Starting` and hand back
    /// the parsed address and the `Starting` status event.  The caller then
    /// attempts the bind and reports back through `bind_succeeded` or
    /// `bind_failed`.
    pub fn begin_start(&mut self, address: &str) -> (r: Result<(SocketAddress, Event), ServerError>)
        requires
            old(self).wf(),
        ensures
            final(self).wf(),
            ({
                let (m2, res) = spec_begin_start(old(self)@, address.spec_bytes());
                &&& final(self)@ == m2
                &&& match (r, res) {
                    (Ok((a, e)), Ok((sa, se))) => a == sa && e@ == se,
                    (Err(e), Err(me)) => e@ == me,
                    _ => false,
                }
            }),
    {
        match crate::address::check_server(address) {
            Err(e) => Err(e),
            Ok(a) => {
                match &self.state {
                    LifecycleState::NoServer => {
                        self.state = LifecycleState::Starting { requested: a };
                        Ok((a, Event::ServerStatus { status: ServerStatus::Starting }))
                    },
                    _ => Err(ServerError::StatusError("Server already started".to_owned())),
                }
            },
        }
    }

    /// The bind succeeded and the listener is accepting: move to `Running`
    /// and hand back the `Started` event carrying the bound address, which
    /// certifies reachability to the observer.
    pub fn bind_succeeded(&mut self, bound: SocketAddress) -> (e: Event)
        requires
            old(self).wf(),
            old(self)@.state is Starting,
        ensures
            final(self).wf(),
            ({
                let (m2, ev) = spec_bind_succeeded(old(self)@, bound);
                final(self)@ == m2 && e@ == ev
            }),
    {
        self.state = LifecycleState::Running { bound };
        Event::ServerStatus { status: ServerStatus::Started { address: bound } }
    }

    /// The bind failed: release the would-be server and hand back the error
    /// preserving the detail the operating system gave.
    pub fn bind_failed(&mut self, detail: String) -> (e: ServerError)
        requires
            old(self).wf(),
            old(self)@.state is Starting,
        ensures
            final(self).wf(),
            ({
                let (m2, me) = spec_bind_failed(old(self)@, detail@);
                final(self)@ == m2 && e@ == me
            }),
    {
        self.state = LifecycleState::NoServer;
        ServerError::BindError(detail)
    }

    /// A socket was accepted: assign the next identifier (monotonic, never
    /// reused), register the connection, and hand back the identifier and
    /// the `client_connect` event.  `headers` are the handshake's header
    /// pairs already grouped by name (see `convert`).
    pub fn user_connected(
        &mut self,
        address: Option<SocketAddress>,
        tail: String,
        query: Vec<(String, String)>,
        headers: Vec<(String, Vec<String>)>,
    ) -> (r: (usize, Event))
        requires
            old(self).wf(),
            old(self)@.state is Running,
            old(self)@.next_id < usize::MAX,
        ensures
            final(self).wf(),
            ({
                let (m2, id, ev) = spec_user_connected(
                    old(self)@,
                    address,
                    tail@,
                    pairs_view(query@),
                    groups_view(headers@),
                );
                &&& final(self)@ == m2
                &&& r.0 as int == id
                &&& r.1@ == ev
            }),
    {
        let identifier = self.next_id;
        self.next_id = self.next_id + 1;
        self.connections.push(ClientConnection { identifier, address });
        let client = Client { identifier, address };
        proof {
            assert(self@.connections =~= old(self)@.connections.push(
                ClientModel { identifier: identifier as int, address },
            ));
        }
        (
            identifier,
            Event::ClientConnect { message: ConnectMessage { client, tail, query, headers } },
        )
    }

    /// A non-close frame arrived from this connection's peer: hand back the
    /// `client_message` event that relays it, tagged with the client
    /// direction.  The engine's state does not change.
    pub fn client_frame(&self, identifier: usize, message: MessageType) -> (e: Event)
        requires
            self.wf(),
            self@.has_conn(identifier as int),
        ensures
            e@ == spec_client_frame(self@, identifier as int, message@),
    {
        let address = match self.find_index(identifier) {
            Some(i) => self.connections[i].address,
            None => None,
        };
        Event::ClientMessage {
            message: ClientMessage {
                client: Client { identifier, address },
                direction: Direction::CLIENT,
                message,
            },
        }
    }

    /// This connection ended (peer close, error, or delivered server
    /// close): deregister it and hand back its `client_disconnect` event,
    /// carrying the peer's close frame if one arrived.  A connection must
    /// be registered to end, so the event is produced exactly once per
    /// identifier — identifiers are never registered twice.
    pub fn client_closed(&mut self, identifier: usize, message: Option<CloseFrame>) -> (e: Event)
        requires
            old(self).wf(),
            old(self)@.has_conn(identifier as int),
        ensures
            final(self).wf(),
            ({
                let (m2, ev) = spec_client_closed(
                    old(self)@,
                    identifier as int,
                    close_opt_view(message),
                );
                final(self)@ == m2 && e@ == ev
            }),
    {
        let i = match self.find_index(identifier) {
            Some(i) => i,
            // a registered identifier is always found
            None => vstd::pervasive::unreached(),
        };
        let conn = self.connections.remove(i);
        proof {
            let k = find_conn(old(self)@.connections, identifier as int);
            lemma_find_conn(old(self)@.connections, identifier as int);
            assert(self@.connections =~= old(self)@.connections.subrange(0, k)
                + old(self)@.connections.subrange(k + 1, old(self)@.connections.len() as int));
        }
        Event::ClientDisconnect {
            message: DisconnectMessage {
                client: Client { identifier, address: conn.address },
                message,
            },
        }
    }

    /// Send a text frame to this connection: demand a running server and a
    /// registered identifier, and hand back the enqueue action together
    /// with the `client_message` event tagged with the server direction.
    /// Success means the frame is ordered onto the connection's outbound
    /// queue, not that it was delivered.  On failure nothing is emitted.
    pub fn send_text(&self, identifier: usize, text: String) -> (r: Result<
        (Action, Event),
        ServerError,
    >)
        requires
            self.wf(),
        ensures
            match (r, spec_send_text(self@, identifier as int, text@)) {
                (Ok((a, e)), Ok((sa, se))) => a@ == sa && e@ == se,
                (Err(e), Err(me)) => e@ == me,
                _ => false,
            },
    {
        match &self.state {
            LifecycleState::Running { .. } => {
                match self.find_index(identifier) {
                    Some(i) => {
                        let address = self.connections[i].address;
                        Ok(
                            (
                                Action::SendFrame {
                                    identifier,
                                    frame: MessageType::TEXT { msg: text.clone() },
                                },
                                Event::ClientMessage {
                                    message: ClientMessage {
                                        client: Client { identifier, address },
                                        direction: Direction::SERVER,
                                        message: MessageType::TEXT { msg: text },
                                    },
                                },
                            ),
                        )
                    },
                    None => Err(ServerError::StatusError("Client not found.".to_owned())),
                }
            },
            _ => Err(ServerError::StatusError("Server already stopped.".to_owned())),
        }
    }

    /// Force-close this connection: demand a running server and a
    /// registered identifier, and hand back the action that enqueues a
    /// close frame with this code and reason.  The connection's normal
    /// teardown then produces the disconnect event.
    pub fn close_client(&self, identifier: usize, status: u16, reason: String) -> (r: Result<
        Action,
        ServerError,
    >)
        requires
            self.wf(),
        ensures
            match (r, spec_close_client(self@, identifier as int, status, reason@)) {
                (Ok(a), Ok(sa)) => a@ == sa,
                (Err(e), Err(me)) => e@ == me,
                _ => false,
            },
    {
        match &self.state {
            LifecycleState::Running { .. } => {
                match self.find_index(identifier) {
                    Some(_) => Ok(
                        Action::SendClose {
                            identifier,
                            frame: Some(CloseFrame { code: status, reason }),
                        },
                    ),
                    None => Err(ServerError::StatusError("Client not found.".to_owned())),
                }
            },
            _ => Err(ServerError::StatusError("Server already stopped.".to_owned())),
        }
    }

    /// Stop the server: reject when none is running; otherwise stop
    /// accepting, move to `Stopping`, and hand back one close action for
    /// every registered connection — a snapshot, in acceptance order —
    /// together with the `Stopping` status event.  The caller performs the
    /// actions, feeds each ending connection through `client_closed`, and
    /// finishes with `stop_complete` once the registry is empty.
    pub fn stop_server(&mut self) -> (r: Result<(Vec<Action>, Event), ServerError>)
        requires
            old(self).wf(),
        ensures
            final(self).wf(),
            ({
                let (m2, res) = spec_stop(old(self)@);
                &&& final(self)@ == m2
                &&& match (r, res) {
                    (Ok((acts, e)), Ok((sacts, se))) => acts@.map_values(|a: Action| a@) == sacts
                        && e@ == se,
                    (Err(e), Err(me)) => e@ == me,
                    _ => false,
                }
            }),
    {
        match &self.state {
            LifecycleState::Running { .. } => {
                self.state = LifecycleState::Stopping;
                let n = self.connections.len();
                let mut actions: Vec<Action> = Vec::new();
                let mut i: usize = 0;
                while i < n
                    invariant
                        n == self.connections@.len(),
                        i <= n,
                        actions@.len() == i,
                        forall|k: int|
                            0 <= k < i ==> #[trigger] actions@[k]@ == (ActionModel::SendClose {
                                identifier: self.connections@[k].identifier as int,
                                frame: None,
                            }),
                    decreases n - i,
                {
                    let identifier = self.connections[i].identifier;
                    actions.push(Action::SendClose { identifier, frame: None });
                    i = i + 1;
                }
                proof {
                    assert(actions@.map_values(|a: Action| a@) =~= old(self)@.connections.map_values(
                        |c: ClientModel| ActionModel::SendClose {
                            identifier: c.identifier,
                            frame: None,
                        },
                    ));
                }
                Ok((actions, Event::ServerStatus { status: ServerStatus::Stopping }))
            },
            _ => Err(ServerError::StatusError("Server already stopped".to_owned())),
        }
    }

    /// Shutdown is complete: every connection has drained and the listener
    /// has exited, so release the server and hand back the `Stopped` event.
    pub fn stop_complete(&mut self) -> (e: Event)
        requires
            old(self).wf(),
            old(self)@.state is Stopping,
            old(self)@.connections.len() == 0,
        ensures
            final(self).wf(),
            ({
                let (m2, ev) = spec_stop_complete(old(self)@);
                final(self)@ == m2 && e@ == ev
            }),
    {
        self.state = LifecycleState::NoServer;
        Event::ServerStatus { status: ServerStatus::Stopped }
    }
}

} // verus!
