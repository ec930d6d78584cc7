//! The registry's decisions for user commands.
//!
//! A command is planned against the registry: most are answered at once,
//! while opening a listener or a client and sending bytes need the
//! transport first. For those the plan says what to bind, connect or write,
//! and the task that performs the I/O hands the result back to a `finish_`
//! function, which updates the registry and words the reply.

use vstd::prelude::*;

use crate::command::{Command, CommandView};
use crate::endpoint::{Endpoint, EndpointView, ServerEndpoint, ServerEndpointView};
use crate::error::{DomainError, DomainErrorView};
use crate::event::{CommandOutcome, DisplayLine, PeerInfo, PeerView};
use crate::id::{ConnectionId, IdView};
use crate::registry::{
    closed_stream, handle_ids, id_views, Registry, RegistryView, ServerHandle, ServerView,
    StreamHandle, StreamView,
};
use crate::runtime::{lines_view, tagged, tagged_line};
use crate::seqmap::lemma_key_map_empty;
use crate::state::{ConnectionState, ConnectionStatus, StateView};
use crate::status::{status_orders, status_text};
use crate::token::default_token_parser;
use crate::text::{dec_string, dec_text, push_str, string_of};

verus! {

// ---------------------------------------------------------------------
// Plans
// ---------------------------------------------------------------------

/// How a payload goes out.
pub struct SendPlan {
    /// The id the user named.
    pub target: ConnectionId,
    /// Whether the target is a server, whose every child gets the payload.
    pub broadcast: bool,
    /// The streams to write to, in order.
    pub targets: Vec<ConnectionId>,
    /// The payload.
    pub bytes: Vec<u8>,
}

/// A command that needs no more I/O: the reply, the lines to show, and
/// the handles it closed, for the caller to release.
pub struct Completion<S, T> {
    pub outcome: CommandOutcome,
    pub lines: Vec<DisplayLine>,
    pub closed_server: Option<ServerHandle<T>>,
    pub closed_streams: Vec<StreamHandle<S>>,
}

/// What a planned command asks for next.
pub enum Step<S, T> {
    /// Done: reply and release.
    Done(Completion<S, T>),
    /// Bind this endpoint, then call `finish_bind` (or reply with the
    /// transport's error).
    Bind(ServerEndpoint),
    /// Connect to this endpoint, then call `finish_connect` (or reply with
    /// the transport's error).
    Connect(Endpoint),
    /// Write the payload to each target (after `check_writable`), then call
    /// `finish_send`.
    Send(SendPlan),
}

/// The id a server endpoint is registered under.
pub open spec fn server_id_of(e: ServerEndpointView) -> IdView {
    match e {
        ServerEndpointView::Tcp { port } => IdView::TcpServer { port },
        ServerEndpointView::Ipc { path } => IdView::IpcServer { path },
    }
}

/// The id a client endpoint is registered under.
pub open spec fn client_id_of(e: EndpointView) -> IdView {
    match e {
        EndpointView::Tcp { local_port, .. } => IdView::TcpClient { local_port },
        EndpointView::Ipc { local_path, .. } => IdView::IpcClient { local_path },
    }
}

/// `r` replies at once, changes nothing outside the registry and closes
/// nothing.
pub open spec fn replied<S, T>(r: Step<S, T>, success: bool, message: Seq<char>, lines: Seq<Seq<char>>) -> bool {
    &&& r matches Step::Done(c)
    &&& c.outcome.success == success
    &&& c.outcome.message@ == message
    &&& lines_view(c.lines@) == lines
    &&& c.closed_server is None
    &&& c.closed_streams@.len() == 0
}

/// `r` refuses the command with the error `e`.
pub open spec fn refused<S, T>(r: Step<S, T>, e: DomainErrorView) -> bool {
    replied(r, false, e.message(), Seq::empty())
}

/// The effect and reply of closing the registered id `id`: a server
/// closes with all its children, a stream alone; the `CLOSED` line shows
/// the name the id had.
pub open spec fn close_step<S, T>(
    old: RegistryView<S, T>,
    new: RegistryView<S, T>,
    id: IdView,
    r: Step<S, T>,
) -> bool {
    &&& r matches Step::Done(c)
    &&& c.outcome.success
    &&& lines_view(c.lines@) == seq![old.closed_line(id)]
    &&& if old.servers.contains_key(id) {
        &&& new == old.without_server(id)
        &&& c.outcome.message@ == "closed server "@ + id.text() + " and all its children"@
        &&& c.closed_server matches Some(srv) && srv@ == (ServerView {
            children: Set::<IdView>::empty(),
            ..old.servers[id]
        })
        &&& handle_ids(c.closed_streams@).no_duplicates()
        &&& handle_ids(c.closed_streams@).to_set() == old.servers[id].children
        &&& forall|i: int|
            0 <= i < c.closed_streams@.len() ==> #[trigger] c.closed_streams@[i]@ == closed_stream(
                old.streams[c.closed_streams@[i].state.id@],
            )
    } else {
        &&& new == old.without_streams(set![id])
        &&& c.outcome.message@ == "closed "@ + id.text()
        &&& c.closed_server is None
        &&& c.closed_streams@.len() == 1
        &&& c.closed_streams@[0]@ == closed_stream(old.streams[id])
    }
}

impl<S, T> RegistryView<S, T> {
    /// Why a payload cannot be sent to `target`, if it cannot: it is
    /// empty, or the target is a server that is unknown or has no child.
    pub open spec fn send_error(self, target: IdView, bytes: Seq<u8>) -> Option<DomainErrorView> {
        if bytes.len() == 0 {
            Some(DomainErrorView::EmptyPayload)
        } else if target.is_server() {
            if !self.servers.contains_key(target) {
                Some(DomainErrorView::UnknownId(target.text()))
            } else if self.servers[target].children == Set::<IdView>::empty() {
                Some(DomainErrorView::ServerHasNoChildren(target.text()))
            } else {
                None
            }
        } else {
            None
        }
    }

    /// Why a stream cannot be written to, if it cannot: it is unknown, or
    /// closing or closed.
    pub open spec fn write_error(self, id: IdView) -> Option<DomainErrorView> {
        if !self.streams.contains_key(id) {
            Some(DomainErrorView::UnknownId(id.text()))
        } else if self.streams[id].state.status == ConnectionStatus::Closed
            || self.streams[id].state.status == ConnectionStatus::Closing {
            Some(DomainErrorView::Logic(id.text() + " is not writable"@))
        } else {
            None
        }
    }
}

/// `p` sends `bytes` to `target`: to every child of a server, else to the
/// target alone.
pub open spec fn planned<S, T>(v: RegistryView<S, T>, p: SendPlan, target: IdView, bytes: Seq<u8>) -> bool {
    &&& p.target@ == target
    &&& p.bytes@ == bytes
    &&& p.broadcast == target.is_server()
    &&& if target.is_server() {
        &&& id_views(p.targets@).no_duplicates()
        &&& id_views(p.targets@).to_set() == v.servers[target].children
    } else {
        id_views(p.targets@) == seq![target]
    }
}

/// The reply to a payload that went out.
pub open spec fn sent_message(count: nat, target: IdView) -> Seq<char> {
    "sent "@ + dec_text(count) + " bytes to "@ + target.text()
}

/// The error a write result holds.
pub open spec fn result_view(r: Result<(), DomainError>) -> Option<DomainErrorView> {
    match r {
        Ok(_) => None,
        Err(e) => Some(e@),
    }
}

/// One `ERROR` line per failed write of a broadcast, in order.
pub open spec fn failure_lines<S, T>(
    v: RegistryView<S, T>,
    ids: Seq<IdView>,
    errs: Seq<Option<DomainErrorView>>,
) -> Seq<Seq<char>>
    decreases ids.len(),
{
    if ids.len() == 0 {
        Seq::empty()
    } else {
        let rest = failure_lines(v, ids.drop_last(), errs.take(ids.len() - 1));
        match errs[ids.len() - 1] {
            Some(e) => rest.push(v.error_line(ids.last(), e.message())),
            None => rest,
        }
    }
}

/// The server registered for a bound endpoint.
pub open spec fn bound_server<T>(e: ServerEndpointView, task: T) -> ServerView<T> {
    ServerView {
        state: StateView {
            id: server_id_of(e),
            status: ConnectionStatus::Connected,
            label: None,
            peer_info: None,
        },
        accept_task: task,
        children: Set::empty(),
        ipc_path: match e {
            ServerEndpointView::Tcp { .. } => None,
            ServerEndpointView::Ipc { path } => Some(path),
        },
        bases: Map::empty(),
    }
}

/// The peer of a connected client: the remote `host:port` of a TCP
/// client, the pid of the other end (when known) of an IPC client.
pub open spec fn client_peer(e: EndpointView, ipc_peer_pid: Option<i32>) -> Option<PeerView> {
    match e {
        EndpointView::Tcp { remote_host, remote_port, .. } => Some(
            PeerView::TcpSocket { addr: remote_host + ":"@ + dec_text(remote_port as nat) },
        ),
        EndpointView::Ipc { .. } => match ipc_peer_pid {
            Some(pid) => Some(PeerView::IpcPid { pid }),
            None => None,
        },
    }
}

/// The stream registered for a connected client.
pub open spec fn client_stream<S>(e: EndpointView, ipc_peer_pid: Option<i32>, io: S) -> StreamView<S> {
    StreamView {
        state: StateView {
            id: client_id_of(e),
            status: ConnectionStatus::Connected,
            label: None,
            peer_info: client_peer(e, ipc_peer_pid),
        },
        io,
        parent: None,
        local_ipc_path: match e {
            EndpointView::Tcp { .. } => None,
            EndpointView::Ipc { local_path, .. } => Some(local_path),
        },
    }
}

/// The reply to a connected client.
pub open spec fn connected_message(e: EndpointView) -> Seq<char> {
    match e {
        EndpointView::Tcp { .. } => "client "@ + client_id_of(e).text() + " connected"@,
        EndpointView::Ipc { remote_path, .. } => "ipc client "@ + client_id_of(e).text()
            + " connected to "@ + remote_path,
    }
}

/// The line shown for a connected client.
pub open spec fn connected_line(e: EndpointView) -> Seq<char> {
    match e {
        EndpointView::Tcp { remote_host, remote_port, .. } => tagged(
            client_id_of(e).text(),
            " connected to "@ + remote_host + ":"@ + dec_text(remote_port as nat),
        ),
        EndpointView::Ipc { remote_path, .. } => tagged(
            client_id_of(e).text(),
            " connected to "@ + remote_path,
        ),
    }
}

/// The id a server endpoint is registered under.
pub fn bound_id(e: &ServerEndpoint) -> (r: ConnectionId)
    ensures
        r@ == server_id_of(e@),
{
    match e {
        ServerEndpoint::Tcp { port } => ConnectionId::TcpServer { port: *port },
        ServerEndpoint::Ipc { path } => ConnectionId::IpcServer { path: path.clone() },
    }
}

/// The id a client endpoint is registered under.
pub fn client_id(e: &Endpoint) -> (r: ConnectionId)
    ensures
        r@ == client_id_of(e@),
{
    match e {
        Endpoint::Tcp { local_port, .. } => ConnectionId::TcpClient { local_port: *local_port },
        Endpoint::Ipc { local_path, .. } => ConnectionId::IpcClient { local_path: local_path.clone() },
    }
}

fn refusal<S, T>(e: DomainError) -> (r: Step<S, T>)
    ensures
        refused(r, e@),
{
    let c = Completion {
        outcome: CommandOutcome::err(e.to_string()),
        lines: Vec::new(),
        closed_server: None,
        closed_streams: Vec::new(),
    };
    proof {
        assert(lines_view(c.lines@) =~= Seq::<Seq<char>>::empty());
    }
    Step::Done(c)
}

fn reply<S, T>(o: CommandOutcome) -> (r: Step<S, T>)
    ensures
        replied(r, o.success, o.message@, Seq::empty()),
{
    let c = Completion { outcome: o, lines: Vec::new(), closed_server: None, closed_streams: Vec::new() };
    proof {
        assert(lines_view(c.lines@) =~= Seq::<Seq<char>>::empty());
    }
    Step::Done(c)
}

impl<S, T> Registry<S, T> {
    /// Whether an id is registered (as a server or a stream).
    pub fn is_registered(&self, id: &ConnectionId) -> (r: bool)
        requires
            self.wf(),
        ensures
            r == self@.is_registered(id@),
    {
        self.has_server(id) || self.has_stream(id)
    }

    /// Plan a send: refuse an empty payload, an unknown server and a
    /// server without children; otherwise list the streams to write to.
    pub fn send_bytes(&self, target: &ConnectionId, bytes: Vec<u8>) -> (r: Result<SendPlan, DomainError>)
        requires
            self.wf(),
        ensures
            match r {
                Ok(p) => self@.send_error(target@, bytes@) is None && planned(self@, p, target@, bytes@),
                Err(e) => self@.send_error(target@, bytes@) == Some(e@),
            },
    {
        if bytes.len() == 0 {
            return Err(DomainError::EmptyPayload);
        }
        if target.is_server() {
            match self.find_server(target) {
                None => Err(DomainError::UnknownId(target.to_string())),
                Some(j) => {
                    proof {
                        reveal(Registry::wf);
                        assert(self.servers@[j as int].wf());
                    }
                    let targets = self.children_of(j);
                    let ghost kids = id_views(self.servers@[j as int].children@);
                    if targets.len() == 0 {
                        proof {
                            assert(kids.len() == 0);
                            assert(kids.to_set() =~= Set::<IdView>::empty());
                        }
                        Err(DomainError::ServerHasNoChildren(target.to_string()))
                    } else {
                        proof {
                            assert(kids.to_set().contains(kids[0]));
                        }
                        Ok(SendPlan { target: target.duplicate(), broadcast: true, targets, bytes })
                    }
                },
            }
        } else {
            let mut targets: Vec<ConnectionId> = Vec::new();
            targets.push(target.duplicate());
            proof {
                assert(id_views(targets@) =~= seq![target@]);
            }
            Ok(SendPlan { target: target.duplicate(), broadcast: false, targets, bytes })
        }
    }

    /// Check that a stream can be written to before writing.
    pub fn check_writable(&self, id: &ConnectionId) -> (r: Result<(), DomainError>)
        requires
            self.wf(),
        ensures
            match r {
                Ok(()) => self@.write_error(id@) is None,
                Err(e) => self@.write_error(id@) == Some(e@),
            },
    {
        match self.find_stream(id) {
            None => Err(DomainError::UnknownId(id.to_string())),
            Some(i) => {
                let st = self.streams[i].state.status;
                match st {
                    ConnectionStatus::Connected => Ok(()),
                    _ => {
                        let mut m = id.to_string();
                        push_str(&mut m, " is not writable");
                        Err(DomainError::Logic(m))
                    },
                }
            },
        }
    }

    /// Word the reply to a send once every write was tried, with
    /// `results[k]` the outcome of the write to `plan.targets[k]`. A
    /// broadcast succeeds and shows one `ERROR` line per failed child; a
    /// single write replies with its own outcome.
    pub fn finish_send(&self, plan: &SendPlan, results: &Vec<Result<(), DomainError>>) -> (r: (
        CommandOutcome,
        Vec<DisplayLine>,
    ))
        requires
            self.wf(),
            results@.len() == plan.targets@.len(),
            !plan.broadcast ==> plan.targets@.len() == 1,
        ensures
            if plan.broadcast {
                &&& r.0.success
                &&& r.0.message@ == sent_message(plan.bytes@.len(), plan.target@)
                &&& lines_view(r.1@) == failure_lines(
                    self@,
                    id_views(plan.targets@),
                    results@.map_values(|x: Result<(), DomainError>| result_view(x)),
                )
            } else {
                &&& match results@[0] {
                    Ok(_) => r.0.success && r.0.message@ == sent_message(plan.bytes@.len(), plan.target@),
                    Err(e) => !r.0.success && r.0.message@ == e@.message(),
                }
                &&& r.1@.len() == 0
            },
    {
        let mut sent = string_of("sent ");
        let count = dec_string(plan.bytes.len() as u64);
        push_str(&mut sent, count.as_str());
        push_str(&mut sent, " bytes to ");
        let t = plan.target.to_string();
        push_str(&mut sent, t.as_str());
        let mut lines: Vec<DisplayLine> = Vec::new();
        if !plan.broadcast {
            let o = match &results[0] {
                Ok(_) => CommandOutcome::ok(sent),
                Err(e) => CommandOutcome::err(e.to_string()),
            };
            return (o, lines);
        }
        let ghost ids = id_views(plan.targets@);
        let ghost errs = results@.map_values(|x: Result<(), DomainError>| result_view(x));
        let mut k: usize = 0;
        while k < results.len()
            invariant
                self.wf(),
                0 <= k <= results@.len(),
                results@.len() == plan.targets@.len(),
                ids == id_views(plan.targets@),
                errs == results@.map_values(|x: Result<(), DomainError>| result_view(x)),
                lines_view(lines@) == failure_lines(self@, ids.take(k as int), errs.take(k as int)),
            decreases results@.len() - k,
        {
            let ghost l0 = lines@;
            proof {
                assert(ids.take(k as int + 1).drop_last() =~= ids.take(k as int));
                assert(errs.take(k as int + 1).take(k as int) =~= errs.take(k as int));
                assert(errs[k as int] == result_view(results@[k as int]));
            }
            match &results[k] {
                Ok(_) => {},
                Err(e) => {
                    let name = self.display_name(&plan.targets[k]);
                    let mut rest = string_of(" ERROR ");
                    let m = e.to_string();
                    push_str(&mut rest, m.as_str());
                    lines.push(tagged_line(name.as_str(), rest.as_str()));
                    proof {
                        assert(lines_view(lines@) =~= lines_view(l0).push(
                            self@.error_line(ids[k as int], e@.message()),
                        ));
                    }
                },
            }
            k = k + 1;
        }
        proof {
            assert(ids.take(results@.len() as int) =~= ids);
            assert(errs.take(results@.len() as int) =~= errs);
        }
        (CommandOutcome::ok(sent), lines)
    }

    /// Register a server whose endpoint was bound: reply `listening on
    /// <id>` and show `[<id>] listening`.
    pub fn finish_bind(&mut self, endpoint: ServerEndpoint, task: T) -> (r: (CommandOutcome, DisplayLine))
        requires
            old(self).wf(),
            !old(self)@.is_registered(server_id_of(endpoint@)),
        ensures
            final(self).wf(),
            final(self)@ == old(self)@.with_server(bound_server(endpoint@, task)),
            r.0.success,
            r.0.message@ == "listening on "@ + server_id_of(endpoint@).text(),
            r.1.text@ == tagged(server_id_of(endpoint@).text(), " listening"@),
    {
        let (id, ipc_path) = match endpoint {
            ServerEndpoint::Tcp { port } => (ConnectionId::TcpServer { port }, None),
            ServerEndpoint::Ipc { path } => {
                let p = path.clone();
                (ConnectionId::IpcServer { path }, Some(p))
            },
        };
        let text = id.to_string();
        let handle = ServerHandle {
            state: ConnectionState::new_connected(id, None),
            accept_task: task,
            children: Vec::new(),
            ipc_path,
            bases: Vec::new(),
        };
        proof {
            lemma_key_map_empty(handle.bases@, crate::registry::base_key_fn(), crate::registry::base_next_fn());
            assert(id_views(handle.children@).to_set() =~= Set::<IdView>::empty());
            assert(handle@ == bound_server(endpoint@, task));
        }
        self.insert_server(handle);
        let mut msg = string_of("listening on ");
        push_str(&mut msg, text.as_str());
        (CommandOutcome::ok(msg), tagged_line(text.as_str(), " listening"))
    }

    /// Register a client whose endpoint was connected. `ipc_peer_pid` is
    /// the pid of the process at the other end of an IPC client, when the
    /// transport could read it; a TCP client's peer is its remote address.
    pub fn finish_connect(&mut self, endpoint: Endpoint, ipc_peer_pid: Option<i32>, io: S) -> (r: (
        CommandOutcome,
        DisplayLine,
    ))
        requires
            old(self).wf(),
            !old(self)@.is_registered(client_id_of(endpoint@)),
        ensures
            final(self).wf(),
            final(self)@ == old(self)@.with_stream(client_stream(endpoint@, ipc_peer_pid, io)),
            r.0.success,
            r.0.message@ == connected_message(endpoint@),
            r.1.text@ == connected_line(endpoint@),
    {
        let ghost ev = endpoint@;
        match endpoint {
            Endpoint::Tcp { local_port, remote_host, remote_port } => {
                let id = ConnectionId::TcpClient { local_port };
                let text = id.to_string();
                let mut addr = remote_host.clone();
                push_str(&mut addr, ":");
                let rp = dec_string(remote_port as u64);
                push_str(&mut addr, rp.as_str());
                let mut rest = string_of(" connected to ");
                push_str(&mut rest, addr.as_str());
                let handle = StreamHandle {
                    state: ConnectionState::new_connected(id, Some(PeerInfo::TcpSocket { addr })),
                    io,
                    parent: None,
                    local_ipc_path: None,
                };
                proof {
                    assert(handle@ == client_stream(ev, ipc_peer_pid, io));
                }
                self.insert_stream(handle);
                let mut msg = string_of("client ");
                push_str(&mut msg, text.as_str());
                push_str(&mut msg, " connected");
                let line = tagged_line(text.as_str(), rest.as_str());
                proof {
                    assert(line.text@ =~= connected_line(ev));
                }
                (CommandOutcome::ok(msg), line)
            },
            Endpoint::Ipc { local_path, remote_path } => {
                let id = ConnectionId::IpcClient { local_path: local_path.clone() };
                let text = id.to_string();
                let peer = match ipc_peer_pid {
                    Some(pid) => Some(PeerInfo::IpcPid { pid }),
                    None => None,
                };
                let handle = StreamHandle {
                    state: ConnectionState::new_connected(id, peer),
                    io,
                    parent: None,
                    local_ipc_path: Some(local_path),
                };
                proof {
                    assert(handle@ == client_stream(ev, ipc_peer_pid, io));
                }
                self.insert_stream(handle);
                let mut rest = string_of(" connected to ");
                push_str(&mut rest, remote_path.as_str());
                let mut msg = string_of("ipc client ");
                push_str(&mut msg, text.as_str());
                push_str(&mut msg, rest.as_str());
                let line = tagged_line(text.as_str(), rest.as_str());
                proof {
                    assert(line.text@ =~= connected_line(ev));
                    assert(msg@ =~= connected_message(ev));
                }
                (CommandOutcome::ok(msg), line)
            },
        }
    }

    /// Close a registered id: a server with all its children, or a stream.
    fn close_registered(&mut self, id: &ConnectionId) -> (r: Step<S, T>)
        requires
            old(self).wf(),
            old(self)@.is_registered(id@),
        ensures
            final(self).wf(),
            close_step(old(self)@, final(self)@, id@, r),
    {
        let text = id.to_string();
        let name = self.display_name(id);
        let line = tagged_line(name.as_str(), " CLOSED");
        let mut lines: Vec<DisplayLine> = Vec::new();
        lines.push(line);
        proof {
            assert(lines_view(lines@) =~= seq![old(self)@.closed_line(id@)]);
        }
        match self.drop_server(id) {
            Some((srv, kids)) => {
                let mut msg = string_of("closed server ");
                push_str(&mut msg, text.as_str());
                push_str(&mut msg, " and all its children");
                Step::Done(Completion {
                    outcome: CommandOutcome::ok(msg),
                    lines,
                    closed_server: Some(srv),
                    closed_streams: kids,
                })
            },
            None => {
                let h = self.drop_stream(id);
                let mut streams: Vec<StreamHandle<S>> = Vec::new();
                match h {
                    Some(h) => streams.push(h),
                    None => {},
                }
                let mut msg = string_of("closed ");
                push_str(&mut msg, text.as_str());
                Step::Done(Completion {
                    outcome: CommandOutcome::ok(msg),
                    lines,
                    closed_server: None,
                    closed_streams: streams,
                })
            },
        }
    }

    /// Plan a user command against the registry.
    ///
    /// * `open ...`: refused when the id it would register is in use;
    ///   otherwise bind or connect first.
    /// * `close`, `label` and sends resolve their id token first, and are
    ///   refused with `UnknownId` when it names nothing.
    /// * `close` closes a server with all its children, or a stream.
    /// * a send is refused as `send_bytes` says, otherwise planned.
    /// * `label` and `status` are answered at once.
    pub fn plan_command(&mut self, cmd: Command) -> (r: Step<S, T>)
        requires
            old(self).wf(),
        ensures
            final(self).wf(),
            match cmd@ {
                CommandView::OpenTcpServer { port } => {
                    let id = IdView::TcpServer { port };
                    &&& final(self)@ == old(self)@
                    &&& if old(self)@.is_registered(id) {
                        refused(r, DomainErrorView::IdAlreadyInUse(id.text()))
                    } else {
                        r matches Step::Bind(e) && e@ == ServerEndpointView::Tcp { port }
                    }
                },
                CommandView::OpenIpcServer { path } => {
                    let id = IdView::IpcServer { path };
                    &&& final(self)@ == old(self)@
                    &&& if old(self)@.is_registered(id) {
                        refused(r, DomainErrorView::IdAlreadyInUse(id.text()))
                    } else {
                        r matches Step::Bind(e) && e@ == ServerEndpointView::Ipc { path }
                    }
                },
                CommandView::OpenTcpClient { local_port, remote_host, remote_port } => {
                    let id = IdView::TcpClient { local_port };
                    &&& final(self)@ == old(self)@
                    &&& if old(self)@.is_registered(id) {
                        refused(r, DomainErrorView::IdAlreadyInUse(id.text()))
                    } else {
                        r matches Step::Connect(e) && e@ == EndpointView::Tcp {
                            local_port,
                            remote_host,
                            remote_port,
                        }
                    }
                },
                CommandView::OpenIpcClient { local_path, remote_path } => {
                    let id = IdView::IpcClient { local_path };
                    &&& final(self)@ == old(self)@
                    &&& if old(self)@.is_registered(id) {
                        refused(r, DomainErrorView::IdAlreadyInUse(id.text()))
                    } else {
                        r matches Step::Connect(e) && e@ == EndpointView::Ipc { local_path, remote_path }
                    }
                },
                CommandView::Close { id_token } => if !old(self)@.resolvable(id_token) {
                    &&& final(self)@ == old(self)@
                    &&& refused(r, DomainErrorView::UnknownId(id_token))
                } else {
                    exists|id: IdView|
                        old(self)@.resolves(id_token, id) && #[trigger] close_step(
                            old(self)@,
                            final(self)@,
                            id,
                            r,
                        )
                },
                CommandView::Send { id_token, bytes } => {
                    &&& final(self)@ == old(self)@
                    &&& if !old(self)@.resolvable(id_token) {
                        refused(r, DomainErrorView::UnknownId(id_token))
                    } else {
                        exists|id: IdView|
                            #[trigger] old(self)@.resolves(id_token, id) && match old(self)@.send_error(
                                id,
                                bytes,
                            ) {
                                Some(e) => refused(r, e),
                                None => r matches Step::Send(p) && planned(old(self)@, p, id, bytes),
                            }
                    }
                },
                CommandView::Label { id_token, name } => if !old(self)@.resolvable(id_token) {
                    &&& final(self)@ == old(self)@
                    &&& refused(r, DomainErrorView::UnknownId(id_token))
                } else {
                    exists|id: IdView|
                        #[trigger] old(self)@.resolves(id_token, id) && match old(self)@.label_error(
                            id,
                            name,
                        ) {
                            None => {
                                &&& final(self)@ == old(self)@.labeled(id, name)
                                &&& replied(r, true, "labeled "@ + id.text() + " as "@ + name, Seq::empty())
                            },
                            Some(e) => {
                                &&& final(self)@ == old(self)@
                                &&& refused(r, e)
                            },
                        }
                },
                CommandView::Status => {
                    &&& final(self)@ == old(self)@
                    &&& exists|cl: Seq<IdView>, sl: Seq<IdView>, kl: Seq<Seq<IdView>>|
                        status_orders(old(self)@, cl, sl, kl) && replied(
                            r,
                            true,
                            status_text(old(self)@, cl, sl, kl),
                            Seq::empty(),
                        )
                },
            },
    {
        match cmd {
            Command::OpenTcpServer { port } => {
                let id = ConnectionId::TcpServer { port };
                if self.is_registered(&id) {
                    refusal(DomainError::IdAlreadyInUse(id.to_string()))
                } else {
                    Step::Bind(ServerEndpoint::Tcp { port })
                }
            },
            Command::OpenIpcServer { path } => {
                let id = ConnectionId::IpcServer { path: path.clone() };
                if self.is_registered(&id) {
                    refusal(DomainError::IdAlreadyInUse(id.to_string()))
                } else {
                    Step::Bind(ServerEndpoint::Ipc { path })
                }
            },
            Command::OpenTcpClient { local_port, remote_host, remote_port } => {
                let id = ConnectionId::TcpClient { local_port };
                if self.is_registered(&id) {
                    refusal(DomainError::IdAlreadyInUse(id.to_string()))
                } else {
                    Step::Connect(Endpoint::Tcp { local_port, remote_host, remote_port })
                }
            },
            Command::OpenIpcClient { local_path, remote_path } => {
                let id = ConnectionId::IpcClient { local_path: local_path.clone() };
                if self.is_registered(&id) {
                    refusal(DomainError::IdAlreadyInUse(id.to_string()))
                } else {
                    Step::Connect(Endpoint::Ipc { local_path, remote_path })
                }
            },
            Command::Close { id_token } => match self.resolve_id(id_token.as_str(), default_token_parser) {
                Err(e) => refusal(e),
                Ok(id) => {
                    proof {
                        reveal(Registry::wf);
                    }
                    let r = self.close_registered(&id);
                    proof {
                        assert(old(self)@.resolves(id_token@, id@));
                    }
                    r
                },
            },
            Command::Send { id_token, bytes } => match self.resolve_id(id_token.as_str(), default_token_parser) {
                Err(e) => refusal(e),
                Ok(id) => {
                    let ghost bv = bytes@;
                    let r = match self.send_bytes(&id, bytes) {
                        Err(e) => refusal(e),
                        Ok(p) => Step::Send(p),
                    };
                    proof {
                        assert(self@.resolves(id_token@, id@));
                    }
                    r
                },
            },
            Command::Label { id_token, name } => match self.resolve_id(id_token.as_str(), default_token_parser) {
                Err(e) => refusal(e),
                Ok(id) => {
                    let o = self.cmd_label(&id, name.as_str());
                    let r = reply(o);
                    proof {
                        assert(old(self)@.resolves(id_token@, id@));
                    }
                    r
                },
            },
            Command::Status => {
                let o = self.cmd_status();
                reply(o)
            },
        }
    }
}

} // verus!
