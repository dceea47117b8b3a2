//! Events and payloads the engine exchanges with the observer and the
//! surrounding process, together with their mathematical models.

use vstd::prelude::*;
use crate::address::SocketAddress;

verus! {

/// Direction of a relayed message: sent by the server or by the client.
#[derive(Clone, Copy, Debug, PartialEq, Eq, Structural)]
pub enum Direction {
    SERVER,
    CLIENT,
}

/// One WebSocket frame, classified by kind; the payload is opaque.
#[derive(Clone, Debug, PartialEq, Eq)]
pub enum MessageType {
    TEXT { msg: String },
    BINARY { msg: Vec<u8> },
    PING { msg: Vec<u8> },
    PONG { msg: Vec<u8> },
    FRAME { msg: Vec<u8> },
}

/// Close code and reason carried by a close frame.
#[derive(Clone, Debug, PartialEq, Eq)]
pub struct CloseFrame {
    pub code: u16,
    pub reason: String,
}

/// Identity of one connection as events report it.
#[derive(Clone, Copy, Debug, PartialEq, Eq, Structural)]
pub struct Client {
    pub identifier: usize,
    pub address: Option<SocketAddress>,
}

/// Payload of a `client_connect` event: the connection's identity and the
/// request path, query parameters and headers from the handshake.  Headers
/// are multi-valued: each name maps to its values in arrival order.
#[derive(Clone, Debug, PartialEq, Eq)]
pub struct ConnectMessage {
    pub client: Client,
    pub tail: String,
    pub query: Vec<(String, String)>,
    pub headers: Vec<(String, Vec<String>)>,
}

/// Payload of a `client_disconnect` event, with the peer's close frame if
/// one was received.
#[derive(Clone, Debug, PartialEq, Eq)]
pub struct DisconnectMessage {
    pub client: Client,
    pub message: Option<CloseFrame>,
}

/// Payload of a `client_message` event: one relayed frame.
#[derive(Clone, Debug, PartialEq, Eq)]
pub struct ClientMessage {
    pub client: Client,
    pub direction: Direction,
    pub message: MessageType,
}

/// Lifecycle status as observers see it.
#[derive(Clone, Copy, Debug, PartialEq, Eq, Structural)]
pub enum ServerStatus {
    Starting,
    Started { address: SocketAddress },
    Stopping,
    Stopped,
}

/// One push event for the observer.
#[derive(Clone, Debug, PartialEq, Eq)]
pub enum Event {
    ServerStatus { status: ServerStatus },
    ClientConnect { message: ConnectMessage },
    ClientMessage { message: ClientMessage },
    ClientDisconnect { message: DisconnectMessage },
}

/// One outbound action the surrounding process must perform: enqueue a frame
/// or a close frame on a connection's outbound queue.
#[derive(Clone, Debug, PartialEq, Eq)]
pub enum Action {
    SendFrame { identifier: usize, frame: MessageType },
    SendClose { identifier: usize, frame: Option<CloseFrame> },
}

impl MessageType {
    /// Classify one received frame from its kind flags, in the same
    /// precedence the wire transport reports them: text, then binary, then
    /// ping, then pong, and anything else as an opaque frame.  `text`
    /// carries the payload of a text frame, `bytes` of every other kind.
    pub fn classify(
        is_text: bool,
        is_binary: bool,
        is_ping: bool,
        is_pong: bool,
        text: String,
        bytes: Vec<u8>,
    ) -> (r: MessageType)
        ensures
            r@ == spec_classify(is_text, is_binary, is_ping, is_pong, text@, bytes@),
    {
        if is_text {
            MessageType::TEXT { msg: text }
        } else if is_binary {
            MessageType::BINARY { msg: bytes }
        } else if is_ping {
            MessageType::PING { msg: bytes }
        } else if is_pong {
            MessageType::PONG { msg: bytes }
        } else {
            MessageType::FRAME { msg: bytes }
        }
    }
}

/// The classification `MessageType::classify` performs.
pub open spec fn spec_classify(
    is_text: bool,
    is_binary: bool,
    is_ping: bool,
    is_pong: bool,
    text: Seq<char>,
    bytes: Seq<u8>,
) -> FrameModel {
    if is_text {
        FrameModel::Text(text)
    } else if is_binary {
        FrameModel::Binary(bytes)
    } else if is_ping {
        FrameModel::Ping(bytes)
    } else if is_pong {
        FrameModel::Pong(bytes)
    } else {
        FrameModel::Other(bytes)
    }
}

/// Model of a frame: the same classification over character and byte
/// sequences.
pub ghost enum FrameModel {
    Text(Seq<char>),
    Binary(Seq<u8>),
    Ping(Seq<u8>),
    Pong(Seq<u8>),
    Other(Seq<u8>),
}

impl View for MessageType {
    type V = FrameModel;

    open spec fn view(&self) -> FrameModel {
        match self {
            MessageType::TEXT { msg } => FrameModel::Text(msg@),
            MessageType::BINARY { msg } => FrameModel::Binary(msg@),
            MessageType::PING { msg } => FrameModel::Ping(msg@),
            MessageType::PONG { msg } => FrameModel::Pong(msg@),
            MessageType::FRAME { msg } => FrameModel::Other(msg@),
        }
    }
}

/// Model of a close frame.
pub ghost struct CloseFrameModel {
    pub code: u16,
    pub reason: Seq<char>,
}

impl View for CloseFrame {
    type V = CloseFrameModel;

    open spec fn view(&self) -> CloseFrameModel {
        CloseFrameModel { code: self.code, reason: self.reason@ }
    }
}

/// Model of a connection's identity.
pub ghost struct ClientModel {
    pub identifier: int,
    pub address: Option<SocketAddress>,
}

impl View for Client {
    type V = ClientModel;

    open spec fn view(&self) -> ClientModel {
        ClientModel { identifier: self.identifier as int, address: self.address }
    }
}

/// A sequence of string pairs as character sequences.
pub open spec fn pairs_view(v: Seq<(String, String)>) -> Seq<(Seq<char>, Seq<char>)> {
    v.map_values(|p: (String, String)| (p.0@, p.1@))
}

/// A sequence of grouped headers as character sequences.
pub open spec fn groups_view(v: Seq<(String, Vec<String>)>) -> Seq<(Seq<char>, Seq<Seq<char>>)> {
    v.map_values(|p: (String, Vec<String>)| (p.0@, p.1@.map_values(|s: String| s@)))
}

/// Model of a `client_connect` payload.
pub ghost struct ConnectModel {
    pub client: ClientModel,
    pub tail: Seq<char>,
    pub query: Seq<(Seq<char>, Seq<char>)>,
    pub headers: Seq<(Seq<char>, Seq<Seq<char>>)>,
}

impl View for ConnectMessage {
    type V = ConnectModel;

    open spec fn view(&self) -> ConnectModel {
        ConnectModel {
            client: self.client@,
            tail: self.tail@,
            query: pairs_view(self.query@),
            headers: groups_view(self.headers@),
        }
    }
}

/// The model of an optional close frame.
pub open spec fn close_opt_view(o: Option<CloseFrame>) -> Option<CloseFrameModel> {
    match o {
        Some(f) => Some(f@),
        None => None,
    }
}

/// Model of a `client_disconnect` payload.
pub ghost struct DisconnectModel {
    pub client: ClientModel,
    pub message: Option<CloseFrameModel>,
}

impl View for DisconnectMessage {
    type V = DisconnectModel;

    open spec fn view(&self) -> DisconnectModel {
        DisconnectModel { client: self.client@, message: close_opt_view(self.message) }
    }
}

/// Model of a `client_message` payload.
pub ghost struct RelayModel {
    pub client: ClientModel,
    pub direction: Direction,
    pub message: FrameModel,
}

impl View for ClientMessage {
    type V = RelayModel;

    open spec fn view(&self) -> RelayModel {
        RelayModel { client: self.client@, direction: self.direction, message: self.message@ }
    }
}

/// Model of one observer event.
pub ghost enum EventModel {
    ServerStatus(ServerStatus),
    ClientConnect(ConnectModel),
    ClientMessage(RelayModel),
    ClientDisconnect(DisconnectModel),
}

impl View for Event {
    type V = EventModel;

    open spec fn view(&self) -> EventModel {
        match self {
            Event::ServerStatus { status } => EventModel::ServerStatus(*status),
            Event::ClientConnect { message } => EventModel::ClientConnect(message@),
            Event::ClientMessage { message } => EventModel::ClientMessage(message@),
            Event::ClientDisconnect { message } => EventModel::ClientDisconnect(message@),
        }
    }
}

/// The values that appear under key `k` in `pairs`, in order.
pub open spec fn values_of(pairs: Seq<(Seq<char>, Seq<char>)>, k: Seq<char>) -> Seq<Seq<char>>
    decreases pairs.len(),
{
    if pairs.len() == 0 {
        Seq::empty()
    } else {
        let init = values_of(pairs.drop_last(), k);
        if pairs.last().0 == k {
            init.push(pairs.last().1)
        } else {
            init
        }
    }
}

/// The distinct keys of `pairs`, in order of first appearance.
pub open spec fn first_keys(pairs: Seq<(Seq<char>, Seq<char>)>) -> Seq<Seq<char>>
    decreases pairs.len(),
{
    if pairs.len() == 0 {
        Seq::empty()
    } else {
        let init = first_keys(pairs.drop_last());
        if init.contains(pairs.last().0) {
            init
        } else {
            init.push(pairs.last().0)
        }
    }
}

/// The grouping of `pairs`: one entry per distinct key in order of first
/// appearance, carrying that key's values in order.
pub open spec fn grouped_headers(pairs: Seq<(Seq<char>, Seq<char>)>) -> Seq<
    (Seq<char>, Seq<Seq<char>>),
> {
    first_keys(pairs).map_values(|k: Seq<char>| (k, values_of(pairs, k)))
}

/// The keys of `first_keys` are pairwise distinct.
pub proof fn lemma_first_keys_distinct(pairs: Seq<(Seq<char>, Seq<char>)>)
    ensures
        forall|a: int, b: int|
            0 <= a < b < first_keys(pairs).len() ==> #[trigger] first_keys(pairs)[a]
                != #[trigger] first_keys(pairs)[b],
    decreases pairs.len(),
{
    if pairs.len() > 0 {
        lemma_first_keys_distinct(pairs.drop_last());
        let init = first_keys(pairs.drop_last());
        if !init.contains(pairs.last().0) {
            assert forall|a: int, b: int|
                0 <= a < b < first_keys(pairs).len() implies #[trigger] first_keys(pairs)[a]
                != #[trigger] first_keys(pairs)[b] by {
                if b == init.len() {
                    assert(init[a] == first_keys(pairs)[a]);
                    assert(init.contains(init[a]));
                }
            }
        }
    }
}

/// A key is in `first_keys` exactly when some pair carries it.
pub proof fn lemma_first_keys_complete(pairs: Seq<(Seq<char>, Seq<char>)>, k: Seq<char>)
    ensures
        first_keys(pairs).contains(k) <==> (exists|i: int|
            0 <= i < pairs.len() && #[trigger] pairs[i].0 == k),
    decreases pairs.len(),
{
    if pairs.len() > 0 {
        lemma_first_keys_complete(pairs.drop_last(), k);
        let init = first_keys(pairs.drop_last());
        if first_keys(pairs).contains(k) {
            if pairs.last().0 != k || init.contains(k) {
                if init.contains(k) {
                    let i = choose|i: int|
                        0 <= i < pairs.drop_last().len() && #[trigger] pairs.drop_last()[i].0 == k;
                    assert(pairs[i].0 == k);
                } else {
                    assert(pairs[pairs.len() - 1].0 == k);
                }
            } else {
                assert(pairs[pairs.len() - 1].0 == k);
            }
        }
        if exists|i: int| 0 <= i < pairs.len() && #[trigger] pairs[i].0 == k {
            let i = choose|i: int| 0 <= i < pairs.len() && #[trigger] pairs[i].0 == k;
            if i < pairs.len() - 1 {
                assert(pairs.drop_last()[i].0 == k);
                assert(init.contains(k));
                if !init.contains(pairs.last().0) {
                    assert(first_keys(pairs)[choose|t: int|
                        0 <= t < init.len() && init[t] == k] == k);
                }
            } else {
                if !init.contains(pairs.last().0) {
                    assert(first_keys(pairs)[init.len() as int] == k);
                }
            }
        }
    }
}

/// A key no pair carries has no values.
pub proof fn lemma_values_absent(pairs: Seq<(Seq<char>, Seq<char>)>, k: Seq<char>)
    requires
        forall|i: int| 0 <= i < pairs.len() ==> #[trigger] pairs[i].0 != k,
    ensures
        values_of(pairs, k) == Seq::<Seq<char>>::empty(),
    decreases pairs.len(),
{
    if pairs.len() > 0 {
        assert(forall|i: int|
            0 <= i < pairs.drop_last().len() ==> #[trigger] pairs.drop_last()[i].0 != k);
        lemma_values_absent(pairs.drop_last(), k);
        assert(pairs[pairs.len() - 1].0 != k);
    }
}

/// Group header pairs by name: one entry per distinct name in order of
/// first appearance, carrying that name's values in arrival order.
#[verifier::loop_isolation(false)]
#[verifier::rlimit(50)]
pub fn convert(headers: &Vec<(String, String)>) -> (r: Vec<(String, Vec<String>)>)
    ensures
        groups_view(r@) == grouped_headers(pairs_view(headers@)),
{
    let n = headers.len();
    let mut r: Vec<(String, Vec<String>)> = Vec::new();
    let mut p: usize = 0;
    proof {
        assert(pairs_view(headers@.subrange(0, 0)) =~= Seq::<(Seq<char>, Seq<char>)>::empty());
        assert(groups_view(r@) =~= grouped_headers(pairs_view(headers@.subrange(0, 0))));
    }
    while p < n
        invariant
            p <= n,
            groups_view(r@) == grouped_headers(pairs_view(headers@.subrange(0, p as int))),
        decreases n - p,
    {
        let ghost pre = pairs_view(headers@.subrange(0, p as int));
        let ghost post = pairs_view(headers@.subrange(0, p as int + 1));
        let ghost fk = first_keys(pre);
        proof {
            assert(headers@.subrange(0, p as int + 1).drop_last() =~= headers@.subrange(
                0,
                p as int,
            ));
            assert(post.drop_last() =~= pre);
            assert(post.last() == (headers@[p as int].0@, headers@[p as int].1@));
            lemma_first_keys_distinct(pre);
            lemma_first_keys_complete(pre, post.last().0);
            assert(fk.len() == r@.len());
            assert forall|t: int| 0 <= t < r@.len() implies #[trigger] r@[t].0@ == fk[t]
                && r@[t].1@.map_values(|s: String| s@) == values_of(pre, fk[t]) by {
                assert(groups_view(r@)[t] == grouped_headers(pre)[t]);
            }
        }
        let key = headers[p].0.clone();
        let value = headers[p].1.clone();
        let ghost x = post.last();
        proof {
            assert(key@ == x.0);
            assert(value@ == x.1);
        }
        let m = r.len();
        let mut j: usize = 0;
        let mut found = false;
        while j < m && !found
            invariant
                j <= m,
                m == r@.len(),
                !found ==> forall|t: int| 0 <= t < j ==> #[trigger] r@[t].0@ != key@,
                found ==> j < m && r@[j as int].0@ == key@,
            decreases m - j + if found {
                0int
            } else {
                1int
            },
        {
            if r[j].0.eq(&key) {
                found = true;
            } else {
                j = j + 1;
            }
        }
        let ghost r0 = r@;
        if found {
            let mut entry = r.remove(j);
            entry.1.push(value);
            r.insert(j, entry);
            proof {
                assert(fk[j as int] == x.0);
                assert(fk.contains(x.0));
                assert(first_keys(post) == fk);
                assert(r@ =~= r0.update(j as int, (r0[j as int].0, entry.1)));
                assert(entry.1@ =~= r0[j as int].1@.push(value));
                assert forall|t: int| 0 <= t < r@.len() implies #[trigger] groups_view(r@)[t]
                    == grouped_headers(post)[t] by {
                    assert(grouped_headers(post)[t] == (fk[t], values_of(post, fk[t])));
                    if t == j as int {
                        assert(values_of(post, x.0) == values_of(pre, x.0).push(x.1));
                        assert(r@[t].1@.map_values(|s: String| s@) =~= r0[t].1@.map_values(
                            |s: String| s@,
                        ).push(value@));
                    } else {
                        assert(fk[t] != x.0);
                        assert(values_of(post, fk[t]) == values_of(pre, fk[t]));
                        assert(r@[t] == r0[t]);
                    }
                }
                assert(groups_view(r@) =~= grouped_headers(post));
            }
        } else {
            let mut values: Vec<String> = Vec::new();
            values.push(value);
            r.push((key, values));
            proof {
                assert forall|t: int| 0 <= t < fk.len() implies #[trigger] fk[t] != x.0 by {
                    assert(r0[t].0@ != key@);
                }
                assert(!fk.contains(x.0));
                assert(forall|i: int| 0 <= i < pre.len() ==> #[trigger] pre[i].0 != x.0);
                lemma_values_absent(pre, x.0);
                assert(first_keys(post) == fk.push(x.0));
                assert(r@ =~= r0.push((key, values)));
                assert forall|t: int| 0 <= t < r@.len() implies #[trigger] groups_view(r@)[t]
                    == grouped_headers(post)[t] by {
                    assert(grouped_headers(post)[t] == (first_keys(post)[t], values_of(
                        post,
                        first_keys(post)[t],
                    )));
                    if t < fk.len() {
                        assert(first_keys(post)[t] == fk[t]);
                        assert(fk[t] != x.0);
                        assert(values_of(post, fk[t]) == values_of(pre, fk[t]));
                        assert(r@[t] == r0[t]);
                    } else {
                        assert(first_keys(post)[t] == x.0);
                        assert(values_of(post, x.0) == values_of(pre, x.0).push(x.1));
                        assert(values@ =~= Seq::<String>::empty().push(value));
                        assert(r@[t].1@.map_values(|s: String| s@) =~= Seq::<
                            Seq<char>,
                        >::empty().push(value@));
                        assert(values_of(post, x.0) =~= Seq::<Seq<char>>::empty().push(x.1));
                    }
                }
                assert(groups_view(r@) =~= grouped_headers(post));
            }
        }
        p = p + 1;
    }
    proof {
        assert(headers@.subrange(0, n as int) =~= headers@);
    }
    r
}

/// Model of one outbound action.
pub ghost enum ActionModel {
    SendFrame { identifier: int, frame: FrameModel },
    SendClose { identifier: int, frame: Option<CloseFrameModel> },
}

impl View for Action {
    type V = ActionModel;

    open spec fn view(&self) -> ActionModel {
        match self {
            Action::SendFrame { identifier, frame } => ActionModel::SendFrame {
                identifier: *identifier as int,
                frame: frame@,
            },
            Action::SendClose { identifier, frame } => ActionModel::SendClose {
                identifier: *identifier as int,
                frame: match frame {
                    Some(f) => Some(f@),
                    None => None,
                },
            },
        }
    }
}

} // verus!
