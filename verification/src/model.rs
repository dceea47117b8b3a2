//! Mathematical model of the engine: its state and one spec-level
//! transition per operation of the command surface and of a connection's
//! life.  The executable engine promises that each call performs exactly
//! the corresponding transition; the laws are proved over these
//! transitions alone.

use vstd::prelude::*;
use crate::address::{parse_socket_addr, SocketAddress};
use crate::error::ServerErrorModel;
use crate::messages::{
    ActionModel, ClientModel, CloseFrameModel, ConnectModel, Direction, DisconnectModel,
    EventModel, FrameModel, RelayModel, ServerStatus,
};

verus! {

/// Lifecycle of the listener: at most one exists at a time.  `Starting`
/// holds the address requested, `Running` the address actually bound.
#[derive(Clone, Copy, Debug, PartialEq, Eq, Structural)]
pub enum LifecycleState {
    NoServer,
    Starting { requested: SocketAddress },
    Running { bound: SocketAddress },
    Stopping,
}

/// The engine's state: the lifecycle, the next connection identifier to
/// assign, and the registered connections in order of acceptance.
pub ghost struct EngineModel {
    pub state: LifecycleState,
    pub next_id: int,
    pub connections: Seq<ClientModel>,
}

/// Index of the connection with the given identifier, or -1 if absent.
pub open spec fn find_conn(conns: Seq<ClientModel>, id: int) -> int
    decreases conns.len(),
{
    if conns.len() == 0 {
        -1
    } else if conns[0].identifier == id {
        0
    } else {
        let r = find_conn(conns.subrange(1, conns.len() as int), id);
        if r == -1 {
            -1
        } else {
            r + 1
        }
    }
}

/// What `find_conn` finds: -1 exactly when no connection carries the
/// identifier, and otherwise the first (and, under well-formedness, only)
/// index carrying it.
pub proof fn lemma_find_conn(conns: Seq<ClientModel>, id: int)
    ensures
        find_conn(conns, id) == -1 ==> (forall|i: int|
            0 <= i < conns.len() ==> #[trigger] conns[i].identifier != id),
        find_conn(conns, id) != -1 ==> {
            &&& 0 <= find_conn(conns, id) < conns.len()
            &&& conns[find_conn(conns, id)].identifier == id
            &&& (forall|i: int|
                0 <= i < find_conn(conns, id) ==> #[trigger] conns[i].identifier != id)
        },
    decreases conns.len(),
{
    if conns.len() == 0 {
    } else if conns[0].identifier == id {
    } else {
        let t = conns.subrange(1, conns.len() as int);
        lemma_find_conn(t, id);
        if find_conn(conns, id) == -1 {
            assert forall|i: int| 0 <= i < conns.len() implies #[trigger] conns[i].identifier
                != id by {
                if i > 0 {
                    assert(conns[i] == t[i - 1]);
                }
            }
        } else {
            let f = find_conn(conns, id);
            assert(conns[f] == t[f - 1]);
            assert forall|i: int| 0 <= i < f implies #[trigger] conns[i].identifier != id by {
                if i > 0 {
                    assert(conns[i] == t[i - 1]);
                }
            }
        }
    }
}

impl EngineModel {
    /// Well-formedness: identifiers are strictly increasing in acceptance
    /// order, all below the next identifier to assign, and the registry is
    /// empty unless a listener is running or draining.
    pub open spec fn wf(self) -> bool {
        &&& 1 <= self.next_id
        &&& (forall|i: int, j: int|
            0 <= i < j < self.connections.len() ==> #[trigger] self.connections[i].identifier
                < #[trigger] self.connections[j].identifier)
        &&& (forall|i: int|
            0 <= i < self.connections.len() ==> #[trigger] self.connections[i].identifier
                < self.next_id)
        &&& ((self.state is NoServer || self.state is Starting) ==> self.connections.len() == 0)
    }

    /// The engine before any server has run: identifiers start at 1.
    pub open spec fn init() -> EngineModel {
        EngineModel { state: LifecycleState::NoServer, next_id: 1, connections: Seq::empty() }
    }

    /// Whether a connection with this identifier is registered.
    pub open spec fn has_conn(self, id: int) -> bool {
        find_conn(self.connections, id) != -1
    }

    /// The registered connection with this identifier.
    pub open spec fn conn(self, id: int) -> ClientModel {
        self.connections[find_conn(self.connections, id)]
    }

    /// The registered identifiers, in acceptance order.
    pub open spec fn ids(self) -> Seq<int> {
        self.connections.map_values(|c: ClientModel| c.identifier)
    }
}

/// The status an observer is told for each lifecycle state.
pub open spec fn spec_status(m: EngineModel) -> ServerStatus {
    match m.state {
        LifecycleState::NoServer => ServerStatus::Stopped,
        LifecycleState::Starting { .. } => ServerStatus::Starting,
        LifecycleState::Running { bound } => ServerStatus::Started { address: bound },
        LifecycleState::Stopping => ServerStatus::Stopping,
    }
}

/// Validate an address string: the result of `check_server`.
pub open spec fn spec_check_server(s: Seq<u8>) -> Result<SocketAddress, ServerErrorModel> {
    match parse_socket_addr(s) {
        Some(a) => Ok(a),
        None => Err(ServerErrorModel::AddressError("invalid socket address syntax"@)),
    }
}

/// Begin starting a server: reject a malformed address, reject any state
/// but `NoServer`, otherwise move to `Starting` and report the parsed
/// address together with the `Starting` status event.
pub open spec fn spec_begin_start(m: EngineModel, s: Seq<u8>) -> (
    EngineModel,
    Result<(SocketAddress, EventModel), ServerErrorModel>,
) {
    match parse_socket_addr(s) {
        None => (m, Err(ServerErrorModel::AddressError("invalid socket address syntax"@))),
        Some(a) => {
            if !(m.state is NoServer) {
                (m, Err(ServerErrorModel::StatusError("Server already started"@)))
            } else {
                (
                    EngineModel { state: LifecycleState::Starting { requested: a }, ..m },
                    Ok((a, EventModel::ServerStatus(ServerStatus::Starting))),
                )
            }
        },
    }
}

/// The bind succeeded and the listener is accepting: move to `Running` and
/// report the `Started` status event carrying the bound address.
pub open spec fn spec_bind_succeeded(m: EngineModel, bound: SocketAddress) -> (
    EngineModel,
    EventModel,
) {
    (
        EngineModel { state: LifecycleState::Running { bound }, ..m },
        EventModel::ServerStatus(ServerStatus::Started { address: bound }),
    )
}

/// The bind failed: release the would-be server and report the detail the
/// operating system gave.
pub open spec fn spec_bind_failed(m: EngineModel, detail: Seq<char>) -> (
    EngineModel,
    ServerErrorModel,
) {
    (EngineModel { state: LifecycleState::NoServer, ..m }, ServerErrorModel::BindError(detail))
}

/// A socket was accepted: assign the next identifier, register the
/// connection, and report the `client_connect` event.
pub open spec fn spec_user_connected(
    m: EngineModel,
    address: Option<SocketAddress>,
    tail: Seq<char>,
    query: Seq<(Seq<char>, Seq<char>)>,
    headers: Seq<(Seq<char>, Seq<Seq<char>>)>,
) -> (EngineModel, int, EventModel) {
    let client = ClientModel { identifier: m.next_id, address };
    (
        EngineModel { next_id: m.next_id + 1, connections: m.connections.push(client), ..m },
        m.next_id,
        EventModel::ClientConnect(ConnectModel { client, tail, query, headers }),
    )
}

/// A non-close frame arrived from the peer: report it as a client-to-server
/// `client_message` event.  The state does not change.
pub open spec fn spec_client_frame(m: EngineModel, id: int, frame: FrameModel) -> EventModel {
    EventModel::ClientMessage(
        RelayModel {
            client: ClientModel { identifier: id, address: m.conn(id).address },
            direction: Direction::CLIENT,
            message: frame,
        },
    )
}

/// A connection ended (peer close, error, or delivered server close):
/// deregister it and report the `client_disconnect` event, with the peer's
/// close frame if one arrived.
pub open spec fn spec_client_closed(m: EngineModel, id: int, frame: Option<CloseFrameModel>) -> (
    EngineModel,
    EventModel,
) {
    let i = find_conn(m.connections, id);
    let client = ClientModel { identifier: id, address: m.conn(id).address };
    (
        EngineModel {
            connections: m.connections.subrange(0, i) + m.connections.subrange(
                i + 1,
                m.connections.len() as int,
            ),
            ..m
        },
        EventModel::ClientDisconnect(DisconnectModel { client, message: frame }),
    )
}

/// Send a text frame to a connection: demand a running server and a
/// registered identifier, then order the frame enqueued and report the
/// server-to-client `client_message` event.
pub open spec fn spec_send_text(m: EngineModel, id: int, text: Seq<char>) -> Result<
    (ActionModel, EventModel),
    ServerErrorModel,
> {
    if !(m.state is Running) {
        Err(ServerErrorModel::StatusError("Server already stopped."@))
    } else if !m.has_conn(id) {
        Err(ServerErrorModel::StatusError("Client not found."@))
    } else {
        Ok(
            (
                ActionModel::SendFrame { identifier: id, frame: FrameModel::Text(text) },
                EventModel::ClientMessage(
                    RelayModel {
                        client: ClientModel { identifier: id, address: m.conn(id).address },
                        direction: Direction::SERVER,
                        message: FrameModel::Text(text),
                    },
                ),
            ),
        )
    }
}

/// Force-close a connection: demand a running server and a registered
/// identifier, then order a close frame with this code and reason enqueued.
/// The disconnect event follows from the connection's normal teardown.
pub open spec fn spec_close_client(m: EngineModel, id: int, code: u16, reason: Seq<char>) -> Result<
    ActionModel,
    ServerErrorModel,
> {
    if !(m.state is Running) {
        Err(ServerErrorModel::StatusError("Server already stopped."@))
    } else if !m.has_conn(id) {
        Err(ServerErrorModel::StatusError("Client not found."@))
    } else {
        Ok(ActionModel::SendClose { identifier: id, frame: Some(CloseFrameModel { code, reason }) })
    }
}

/// Stop the server: reject when none is running, otherwise move to
/// `Stopping`, order a close frame for every registered connection — a
/// snapshot, in acceptance order — and report the `Stopping` status event.
pub open spec fn spec_stop(m: EngineModel) -> (
    EngineModel,
    Result<(Seq<ActionModel>, EventModel), ServerErrorModel>,
) {
    if !(m.state is Running) {
        (m, Err(ServerErrorModel::StatusError("Server already stopped"@)))
    } else {
        (
            EngineModel { state: LifecycleState::Stopping, ..m },
            Ok(
                (
                    m.connections.map_values(
                        |c: ClientModel| ActionModel::SendClose { identifier: c.identifier, frame: None },
                    ),
                    EventModel::ServerStatus(ServerStatus::Stopping),
                ),
            ),
        )
    }
}

/// Shutdown is complete: every connection has drained and the listener has
/// exited, so release the server and report the `Stopped` status event.
pub open spec fn spec_stop_complete(m: EngineModel) -> (EngineModel, EventModel) {
    (
        EngineModel { state: LifecycleState::NoServer, ..m },
        EventModel::ServerStatus(ServerStatus::Stopped),
    )
}

} // verus!
