//! Laws of the engine: properties that relate several operations, proved
//! over the spec-level transitions that every executable operation is bound
//! to by its contract.

use vstd::prelude::*;
use crate::address::SocketAddress;
use crate::error::ServerErrorModel;
use crate::messages::{
    ActionModel, ClientModel, CloseFrameModel, Direction, DisconnectModel, EventModel, FrameModel,
    RelayModel, ServerStatus,
};
use crate::model::{
    spec_begin_start, spec_bind_succeeded, spec_check_server, spec_client_closed,
    spec_client_frame, spec_send_text, spec_stop, spec_stop_complete, spec_user_connected,
    EngineModel, LifecycleState,
};

verus! {

/// The payload one accepted socket brings: peer address, request path,
/// query parameters, grouped headers.
pub ghost struct ConnectRequest {
    pub address: Option<SocketAddress>,
    pub tail: Seq<char>,
    pub query: Seq<(Seq<char>, Seq<char>)>,
    pub headers: Seq<(Seq<char>, Seq<Seq<char>>)>,
}

/// Accept a sequence of connections in order, collecting the identifiers
/// assigned.
pub open spec fn connect_all(m: EngineModel, reqs: Seq<ConnectRequest>) -> (EngineModel, Seq<int>)
    decreases reqs.len(),
{
    if reqs.len() == 0 {
        (m, Seq::empty())
    } else {
        let (m1, ids) = connect_all(m, reqs.drop_last());
        let r = reqs.last();
        let (m2, id, ev) = spec_user_connected(m1, r.address, r.tail, r.query, r.headers);
        (m2, ids.push(id))
    }
}

/// Relay a sequence of inbound frames from one connection, collecting the
/// events reported.
pub open spec fn relay_all(m: EngineModel, id: int, frames: Seq<FrameModel>) -> Seq<EventModel>
    decreases frames.len(),
{
    if frames.len() == 0 {
        Seq::empty()
    } else {
        relay_all(m, id, frames.drop_last()).push(spec_client_frame(m, id, frames.last()))
    }
}

/// End the connections with the given identifiers in order, each with its
/// peer's optional close frame, collecting the events reported.
pub open spec fn drain_all(
    m: EngineModel,
    ids: Seq<int>,
    frames: Seq<Option<CloseFrameModel>>,
) -> (EngineModel, Seq<EventModel>)
    decreases ids.len(),
{
    if ids.len() == 0 {
        (m, Seq::empty())
    } else {
        let (m1, ev) = spec_client_closed(m, ids[0], frames[0]);
        let (m2, evs) = drain_all(
            m1,
            ids.subrange(1, ids.len() as int),
            frames.subrange(1, frames.len() as int),
        );
        (m2, seq![ev] + evs)
    }
}

/// `check_server` and `begin_start` agree on validity: from an idle engine,
/// a string accepted by one is accepted by the other with the same address,
/// and a string rejected by one is rejected by the other with the same
/// error.
pub proof fn lemma_check_start_agree(m: EngineModel, s: Seq<u8>)
    requires
        m.wf(),
        m.state is NoServer,
    ensures
        (spec_check_server(s) is Ok) <==> (spec_begin_start(m, s).1 is Ok),
        spec_check_server(s) is Ok ==> spec_begin_start(m, s).1->Ok_0.0 == spec_check_server(
            s,
        )->Ok_0,
        spec_check_server(s) is Err ==> spec_begin_start(m, s).1->Err_0 == spec_check_server(
            s,
        )->Err_0,
{
}

/// Starting while any server exists fails with the status error and leaves
/// the engine exactly as it was.
pub proof fn lemma_start_while_active(m: EngineModel, s: Seq<u8>)
    requires
        m.wf(),
        !(m.state is NoServer),
    ensures
        spec_begin_start(m, s).0 == m,
        spec_begin_start(m, s).1 is Err,
        crate::address::parse_socket_addr(s) is Some ==> spec_begin_start(m, s).1->Err_0
            == ServerErrorModel::StatusError("Server already started"@),
{
}

/// Starting twice in a row without an intervening stop: after a start
/// succeeds and its bind completes, a second start with any well-formed
/// address always yields the status error, and the first server's state is
/// unaffected.
pub proof fn lemma_start_twice(
    m: EngineModel,
    s1: Seq<u8>,
    bound: SocketAddress,
    s2: Seq<u8>,
)
    requires
        m.wf(),
        m.state is NoServer,
        spec_begin_start(m, s1).1 is Ok,
        crate::address::parse_socket_addr(s2) is Some,
    ensures
        ({
            let (m1, _) = spec_begin_start(m, s1);
            let (m2, _) = spec_bind_succeeded(m1, bound);
            let (m3, res) = spec_begin_start(m2, s2);
            &&& m3 == m2
            &&& res == Err::<(SocketAddress, EventModel), ServerErrorModel>(
                ServerErrorModel::StatusError("Server already started"@),
            )
        }),
{
}

/// Accepting `N` connections assigns `N` identifiers that are exactly the
/// next `N` counter values: strictly increasing in acceptance order, all
/// distinct, and — since every identifier ever assigned before is below the
/// counter and the counter never decreases — never a reuse of a released
/// identifier.
pub proof fn lemma_connection_ids_unique(m: EngineModel, reqs: Seq<ConnectRequest>)
    requires
        m.wf(),
        m.state is Running,
    ensures
        ({
            let (m2, ids) = connect_all(m, reqs);
            &&& ids.len() == reqs.len()
            &&& (forall|k: int| 0 <= k < ids.len() ==> #[trigger] ids[k] == m.next_id + k)
            &&& (forall|j: int, k: int|
                0 <= j < k < ids.len() ==> #[trigger] ids[j] < #[trigger] ids[k])
            &&& (forall|k: int| 0 <= k < ids.len() ==> #[trigger] ids[k] >= m.next_id)
            &&& m2.wf()
            &&& m2.state is Running
            &&& m2.next_id == m.next_id + reqs.len()
        }),
    decreases reqs.len(),
{
    if reqs.len() > 0 {
        lemma_connection_ids_unique(m, reqs.drop_last());
        let (m1, ids1) = connect_all(m, reqs.drop_last());
        let r = reqs.last();
        let (m2, id, ev) = spec_user_connected(m1, r.address, r.tail, r.query, r.headers);
    }
}

/// Ending a registered connection removes exactly that connection, keeps
/// the rest in order, and preserves well-formedness.
pub proof fn lemma_client_closed_wf(m: EngineModel, id: int, frame: Option<CloseFrameModel>)
    requires
        m.wf(),
        m.has_conn(id),
        m.state is Running || m.state is Stopping,
    ensures
        ({
            let (m2, ev) = spec_client_closed(m, id, frame);
            &&& m2.wf()
            &&& m2.state == m.state
            &&& m2.next_id == m.next_id
            &&& m2.connections.len() == m.connections.len() - 1
            &&& !m2.has_conn(id)
        }),
{
    crate::model::lemma_find_conn(m.connections, id);
    let i = crate::model::find_conn(m.connections, id);
    let (m2, ev) = spec_client_closed(m, id, frame);
    assert forall|a: int, b: int|
        0 <= a < b < m2.connections.len() implies #[trigger] m2.connections[a].identifier
        < #[trigger] m2.connections[b].identifier by {
        assert(m2.connections[a] == if a < i {
            m.connections[a]
        } else {
            m.connections[a + 1]
        });
        assert(m2.connections[b] == if b < i {
            m.connections[b]
        } else {
            m.connections[b + 1]
        });
    }
    assert forall|a: int| 0 <= a < m2.connections.len() implies #[trigger] m2.connections[a].identifier
        < m2.next_id by {
        assert(m2.connections[a] == if a < i {
            m.connections[a]
        } else {
            m.connections[a + 1]
        });
    }
    crate::model::lemma_find_conn(m2.connections, id);
    let f2 = crate::model::find_conn(m2.connections, id);
    if f2 != -1 {
        let a = f2;
        assert(m2.connections[a] == if a < i {
            m.connections[a]
        } else {
            m.connections[a + 1]
        });
        if a < i {
            assert(m.connections[a].identifier != id);
        } else {
            assert(m.connections[a + 1].identifier != id);
        }
    }
}

/// For one connection, the `client_message` events mirror the frames the
/// peer sent: the same number, in the same order, each tagged with the
/// client direction and this connection's identity — no reordering, no
/// drop, no duplication.
pub proof fn lemma_message_order(m: EngineModel, id: int, frames: Seq<FrameModel>)
    requires
        m.wf(),
        m.has_conn(id),
    ensures
        ({
            let evs = relay_all(m, id, frames);
            &&& evs.len() == frames.len()
            &&& (forall|k: int|
                0 <= k < frames.len() ==> #[trigger] evs[k] == EventModel::ClientMessage(
                    RelayModel {
                        client: ClientModel { identifier: id, address: m.conn(id).address },
                        direction: Direction::CLIENT,
                        message: frames[k],
                    },
                ))
        }),
    decreases frames.len(),
{
    if frames.len() > 0 {
        lemma_message_order(m, id, frames.drop_last());
    }
}

/// Stopping a running server with `K` registered connections yields exactly
/// `K` close actions — one per connection, in acceptance order — and
/// draining them yields exactly `K` `client_disconnect` events, one per
/// connection in that order, after which the registry is empty and
/// completion reports `Stopped` and releases the server.
pub proof fn lemma_stop_drains_all(m: EngineModel, frames: Seq<Option<CloseFrameModel>>)
    requires
        m.wf(),
        m.state is Running,
        frames.len() == m.connections.len(),
    ensures
        ({
            let (m1, res) = spec_stop(m);
            let (m2, evs) = drain_all(m1, m.ids(), frames);
            &&& res is Ok
            &&& res->Ok_0.0.len() == m.connections.len()
            &&& (forall|k: int|
                0 <= k < m.connections.len() ==> #[trigger] res->Ok_0.0[k]
                    == ActionModel::SendClose {
                    identifier: m.connections[k].identifier,
                    frame: None,
                })
            &&& evs.len() == m.connections.len()
            &&& (forall|k: int|
                0 <= k < m.connections.len() ==> #[trigger] evs[k] == EventModel::ClientDisconnect(
                    DisconnectModel { client: m.connections[k], message: frames[k] },
                ))
            &&& m2.connections.len() == 0
            &&& m2.state is Stopping
            &&& spec_stop_complete(m2).0.state is NoServer
            &&& spec_stop_complete(m2).1 == EventModel::ServerStatus(ServerStatus::Stopped)
        }),
{
    let (m1, res) = spec_stop(m);
    lemma_drain_in_order(m1, frames);
    assert(m1.ids() =~= m.ids());
}

/// Draining a draining server's connections front to back: each step
/// reports exactly one disconnect for the front connection and removes it,
/// ending with an empty registry.
proof fn lemma_drain_in_order(m: EngineModel, frames: Seq<Option<CloseFrameModel>>)
    requires
        m.wf(),
        m.state is Stopping,
        frames.len() == m.connections.len(),
    ensures
        ({
            let (m2, evs) = drain_all(m, m.ids(), frames);
            &&& evs.len() == m.connections.len()
            &&& (forall|k: int|
                0 <= k < m.connections.len() ==> #[trigger] evs[k] == EventModel::ClientDisconnect(
                    DisconnectModel { client: m.connections[k], message: frames[k] },
                ))
            &&& m2.connections.len() == 0
            &&& m2.state is Stopping
            &&& m2.next_id == m.next_id
        }),
    decreases m.connections.len(),
{
    let ids = m.ids();
    if m.connections.len() > 0 {
        let id0 = m.connections[0].identifier;
        assert(ids[0] == id0);
        let (m1, ev) = spec_client_closed(m, id0, frames[0]);
        assert(crate::model::find_conn(m.connections, id0) == 0);
        assert(m1.connections =~= m.connections.subrange(1, m.connections.len() as int));
        assert(m1.wf());
        assert(ev == EventModel::ClientDisconnect(
            DisconnectModel { client: m.connections[0], message: frames[0] },
        ));
        lemma_drain_in_order(m1, frames.subrange(1, frames.len() as int));
        assert(m1.ids() =~= ids.subrange(1, ids.len() as int));
        let (m2, evs1) = drain_all(
            m1,
            ids.subrange(1, ids.len() as int),
            frames.subrange(1, frames.len() as int),
        );
        assert forall|k: int| 0 <= k < m.connections.len() implies #[trigger] (seq![ev]
            + evs1)[k] == EventModel::ClientDisconnect(
            DisconnectModel { client: m.connections[k], message: frames[k] },
        ) by {
            if k > 0 {
                assert(evs1[k - 1] == EventModel::ClientDisconnect(
                    DisconnectModel {
                        client: m1.connections[k - 1],
                        message: frames.subrange(1, frames.len() as int)[k - 1],
                    },
                ));
                assert(m1.connections[k - 1] == m.connections[k]);
                assert(frames.subrange(1, frames.len() as int)[k - 1] == frames[k]);
            }
        }
    }
}

/// An identifier is released when it is below the counter and no registered
/// connection carries it: every identifier ever assigned and disconnected
/// is in this state.
pub open spec fn released(m: EngineModel, id: int) -> bool {
    id < m.next_id && !m.has_conn(id)
}

/// A released identifier stays released under every transition of the
/// engine, so an identifier whose connection has disconnected is never
/// assigned or registered again for the life of the process.  Reading the
/// clauses inductively over any run of transitions gives the global claim.
pub proof fn lemma_identifier_never_reused(
    m: EngineModel,
    id: int,
    s: Seq<u8>,
    bound: SocketAddress,
    detail: Seq<char>,
    address: Option<SocketAddress>,
    tail: Seq<char>,
    query: Seq<(Seq<char>, Seq<char>)>,
    headers: Seq<(Seq<char>, Seq<Seq<char>>)>,
    cid: int,
    frame: Option<CloseFrameModel>,
)
    requires
        released(m, id),
    ensures
        released(spec_begin_start(m, s).0, id),
        released(spec_bind_succeeded(m, bound).0, id),
        released(crate::model::spec_bind_failed(m, detail).0, id),
        released(spec_user_connected(m, address, tail, query, headers).0, id),
        m.has_conn(cid) ==> released(spec_client_closed(m, cid, frame).0, id),
        released(spec_stop(m).0, id),
        released(spec_stop_complete(m).0, id),
{
    crate::model::lemma_find_conn(m.connections, id);
    let (mc, _, _) = spec_user_connected(m, address, tail, query, headers);
    crate::model::lemma_find_conn(mc.connections, id);
    let fc = crate::model::find_conn(mc.connections, id);
    if fc != -1 {
        assert(mc.connections[fc].identifier == id);
        if fc < m.connections.len() {
            assert(mc.connections[fc] == m.connections[fc]);
        } else {
            assert(mc.connections[fc].identifier == m.next_id);
        }
    }
    if m.has_conn(cid) {
        crate::model::lemma_find_conn(m.connections, cid);
        let i = crate::model::find_conn(m.connections, cid);
        let (md, _) = spec_client_closed(m, cid, frame);
        crate::model::lemma_find_conn(md.connections, id);
        let fd = crate::model::find_conn(md.connections, id);
        if fd != -1 {
            assert(md.connections[fd].identifier == id);
            assert(md.connections[fd] == if fd < i {
                m.connections[fd]
            } else {
                m.connections[fd + 1]
            });
        }
    }
}

/// Sending text to an identifier that is not registered fails with the
/// not-found error; no action is ordered and no event is emitted, and the
/// engine's state is untouched (the operation never changes it).
pub proof fn lemma_send_text_not_found(m: EngineModel, id: int, text: Seq<char>)
    requires
        m.wf(),
        m.state is Running,
        !m.has_conn(id),
    ensures
        spec_send_text(m, id, text) == Err::<(ActionModel, EventModel), ServerErrorModel>(
            ServerErrorModel::StatusError("Client not found."@),
        ),
{
}

} // verus!
