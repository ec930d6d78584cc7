//! Registry state and logic.
//!
//! The registry owns every live server and stream. What a transport needs
//! to keep alive for a connection (a writer, the handle of its read or
//! accept task) rides along as the opaque payload `S` (streams) or `T`
//! (servers); the registry never looks inside. Removing an entry hands its
//! payload back to the caller, which releases the transport resources and
//! removes socket files: the registry itself does no I/O.
//!
//! Tables are vectors with unique keys; `Registry::view` reads them as maps.

use vstd::prelude::*;

use crate::error::{DomainError, DomainErrorView};
use crate::event::{opt_peer_view, NetEvent, NetEventView, PeerInfo};
use crate::id::{ConnectionId, IdView};
use crate::seqmap::{has_key, key_index, key_map, lemma_key_map_empty, lemma_key_map_index, lemma_key_map_lookup, lemma_key_map_push, lemma_key_map_remove, lemma_key_map_update, lemma_no_dup_push, lemma_no_dup_remove, lemma_no_dup_update, unique_keys};
use crate::state::{ConnectionState, ConnectionStatus, StateView};
use crate::event::CommandOutcome;
use crate::text::{push_str, str_eq, string_of};
use crate::token::token_id;

verus! {

// ---------------------------------------------------------------------
// Handles and their views
// ---------------------------------------------------------------------

/// The view of an optional identifier.
pub open spec fn opt_id_view(p: Option<ConnectionId>) -> Option<IdView> {
    match p {
        Some(x) => Some(x@),
        None => None,
    }
}

/// A live accepted/client stream owned by the registry.
pub struct StreamHandle<S> {
    pub state: ConnectionState,
    /// Transport resources of the stream (writer, read task).
    pub io: S,
    /// For accepted connections: parent server id.
    pub parent: Option<ConnectionId>,
    /// For IPC clients: local socket path to remove on close.
    pub local_ipc_path: Option<String>,
}

pub struct StreamView<S> {
    pub state: StateView,
    pub io: S,
    pub parent: Option<IdView>,
    pub local_ipc_path: Option<Seq<char>>,
}

impl<S> View for StreamHandle<S> {
    type V = StreamView<S>;

    open spec fn view(&self) -> StreamView<S> {
        StreamView {
            state: self.state@,
            io: self.io,
            parent: opt_id_view(self.parent),
            local_ipc_path: self.local_ipc_path.deep_view(),
        }
    }
}

/// Collision bookkeeping of one remote base (TCP remote port or IPC pid)
/// of a server: `next == None` while exactly the first connection from it
/// holds the unsuffixed id, `Some(n)` once suffixes are in use, `n` being
/// the next suffix to hand out.
pub struct BaseSlot {
    pub key: i64,
    pub next: Option<u32>,
}

/// A live server owned by the registry.
pub struct ServerHandle<T> {
    pub state: ConnectionState,
    /// Transport resources of the server (its accept task).
    pub accept_task: T,
    /// Accepted connections that are still open.
    pub children: Vec<ConnectionId>,
    /// IPC socket file path to remove on close (None for TCP).
    pub ipc_path: Option<String>,
    /// Per-remote-base collision state.
    pub bases: Vec<BaseSlot>,
}

pub struct ServerView<T> {
    pub state: StateView,
    pub accept_task: T,
    pub children: Set<IdView>,
    pub ipc_path: Option<Seq<char>>,
    pub bases: Map<int, Option<u32>>,
}

pub open spec fn base_key_fn() -> spec_fn(BaseSlot) -> int {
    |b: BaseSlot| b.key as int
}

pub open spec fn base_next_fn() -> spec_fn(BaseSlot) -> Option<u32> {
    |b: BaseSlot| b.next
}

/// The ids of a sequence of stream handles.
pub open spec fn handle_ids<S>(s: Seq<StreamHandle<S>>) -> Seq<IdView> {
    s.map_values(|h: StreamHandle<S>| h.state.id@)
}

pub open spec fn id_views(s: Seq<ConnectionId>) -> Seq<IdView> {
    s.map_values(|c: ConnectionId| c@)
}

impl<T> ServerHandle<T> {
    /// The handle's own tables are well formed.
    pub open spec fn wf(&self) -> bool {
        &&& id_views(self.children@).no_duplicates()
        &&& unique_keys(self.bases@, base_key_fn())
    }
}

impl<T> View for ServerHandle<T> {
    type V = ServerView<T>;

    open spec fn view(&self) -> ServerView<T> {
        ServerView {
            state: self.state@,
            accept_task: self.accept_task,
            children: id_views(self.children@).to_set(),
            ipc_path: self.ipc_path.deep_view(),
            bases: key_map(self.bases@, base_key_fn(), base_next_fn()),
        }
    }
}

/// One label: a user-chosen name for an id.
pub struct LabelEntry {
    pub name: String,
    pub id: ConnectionId,
}

// ---------------------------------------------------------------------
// The registry and its view
// ---------------------------------------------------------------------

/// Top-level registry state.
pub struct Registry<S, T> {
    pub streams: Vec<StreamHandle<S>>,
    pub servers: Vec<ServerHandle<T>>,
    /// Label -> id (1:1).
    pub labels: Vec<LabelEntry>,
    /// IPC socket paths created by this run, cleaned up on shutdown.
    pub ipc_paths: Vec<String>,
}

pub struct RegistryView<S, T> {
    pub streams: Map<IdView, StreamView<S>>,
    pub servers: Map<IdView, ServerView<T>>,
    pub labels: Map<Seq<char>, IdView>,
    pub ipc_paths: Set<Seq<char>>,
}

pub open spec fn stream_key_fn<S>() -> spec_fn(StreamView<S>) -> IdView {
    |h: StreamView<S>| h.state.id
}

pub open spec fn server_key_fn<T>() -> spec_fn(ServerView<T>) -> IdView {
    |h: ServerView<T>| h.state.id
}

pub open spec fn same_fn<A>() -> spec_fn(A) -> A {
    |a: A| a
}

pub open spec fn label_key_fn() -> spec_fn((Seq<char>, IdView)) -> Seq<char> {
    |p: (Seq<char>, IdView)| p.0
}

pub open spec fn label_id_fn() -> spec_fn((Seq<char>, IdView)) -> IdView {
    |p: (Seq<char>, IdView)| p.1
}

/// Whether a server's collision slot for `key` admits an accepted id with
/// this suffix.
pub open spec fn slot_admits(bases: Map<int, Option<u32>>, key: int, d: Option<u32>) -> bool {
    &&& bases.contains_key(key)
    &&& match d {
        None => bases[key] is None,
        Some(k) => match bases[key] {
            Some(n) => 1 <= k && k < n,
            None => false,
        },
    }
}

/// The parent server and collision key an accepted id is derived from.
pub open spec fn accepted_origin(id: IdView) -> Option<(IdView, int, Option<u32>)> {
    match id {
        IdView::AcceptedTcp { parent_port, remote_port, disambig } => Some(
            (IdView::TcpServer { port: parent_port }, remote_port as int, disambig),
        ),
        IdView::AcceptedIpc { parent_path, pid, disambig } => Some(
            (IdView::IpcServer { path: parent_path }, pid as int, disambig),
        ),
        _ => None,
    }
}


pub open spec fn origin_server(id: IdView) -> IdView {
    match accepted_origin(id) {
        Some((s, k, d)) => s,
        None => id,
    }
}

pub open spec fn origin_key(id: IdView) -> int {
    match accepted_origin(id) {
        Some((s, k, d)) => k,
        None => 0,
    }
}

pub open spec fn origin_disambig(id: IdView) -> Option<u32> {
    match accepted_origin(id) {
        Some((s, k, d)) => d,
        None => None,
    }
}

impl<S, T> RegistryView<S, T> {
    pub open spec fn is_registered(self, id: IdView) -> bool {
        self.streams.contains_key(id) || self.servers.contains_key(id)
    }

    /// The label of a registered id.
    pub open spec fn label_of(self, id: IdView) -> Option<Seq<char>> {
        if self.streams.contains_key(id) {
            self.streams[id].state.label
        } else if self.servers.contains_key(id) {
            self.servers[id].state.label
        } else {
            None
        }
    }

    /// The name an id is shown with: its label, else the id itself.
    pub open spec fn display_name(self, id: IdView) -> Seq<char> {
        match self.label_of(id) {
            Some(l) => l,
            None => id.text(),
        }
    }

    /// An accepted id is attached to the server it names and is admitted
    /// by that server's collision slot.
    pub open spec fn accepted_ok(self, id: IdView, parent: Option<IdView>) -> bool {
        match accepted_origin(id) {
            Some((srv, key, d)) => {
                &&& parent == Some(srv)
                &&& self.servers.contains_key(srv)
                &&& slot_admits(self.servers[srv].bases, key, d)
            },
            None => true,
        }
    }

    /// The invariant the registry keeps between operations.
    pub open spec fn consistent(self) -> bool {
        &&& forall|id: IdView| !(#[trigger] self.streams.contains_key(id) && self.servers.contains_key(id))
        &&& forall|id: IdView| #[trigger]
            self.streams.contains_key(id) ==> self.streams[id].state.id == id
        &&& forall|id: IdView| #[trigger]
            self.servers.contains_key(id) ==> self.servers[id].state.id == id
        &&& forall|id: IdView| #[trigger]
            self.streams.contains_key(id) ==> match self.streams[id].parent {
                Some(p) => self.servers.contains_key(p) && self.servers[p].children.contains(id),
                None => true,
            }
        &&& forall|p: IdView, c: IdView|
            #![trigger self.servers[p].children.contains(c)]
            self.servers.contains_key(p) && self.servers[p].children.contains(c) ==> {
                &&& self.streams.contains_key(c)
                &&& self.streams[c].parent == Some(p)
            }
        &&& forall|n: Seq<char>| #[trigger]
            self.labels.contains_key(n) ==> {
                &&& self.is_registered(self.labels[n])
                &&& self.label_of(self.labels[n]) == Some(n)
            }
        &&& forall|id: IdView| #[trigger]
            self.is_registered(id) ==> match self.label_of(id) {
                Some(n) => self.labels.contains_key(n) && self.labels[n] == id,
                None => true,
            }
        &&& forall|id: IdView| #[trigger]
            self.streams.contains_key(id) ==> self.accepted_ok(id, self.streams[id].parent)
        &&& forall|id: IdView| #[trigger] self.servers.contains_key(id) ==> id.is_server()
        &&& forall|id: IdView| #[trigger] self.streams.contains_key(id) ==> !id.is_server()
        &&& forall|p: IdView, k: int|
            #![trigger self.servers[p].bases[k]]
            self.servers.contains_key(p) && self.servers[p].bases.contains_key(k) ==> match self.servers[p].bases[k] {
                Some(n) => n >= 1,
                None => true,
            }
    }
}

/// The stream with its label replaced.
pub open spec fn stream_with_label<S>(h: StreamView<S>, label: Option<Seq<char>>) -> StreamView<S> {
    StreamView { state: StateView { label: label, ..h.state }, ..h }
}

/// The server with its label replaced.
pub open spec fn server_with_label<T>(h: ServerView<T>, label: Option<Seq<char>>) -> ServerView<T> {
    ServerView { state: StateView { label: label, ..h.state }, ..h }
}

impl<S, T> RegistryView<S, T> {
    /// Why `id` cannot be labeled `name`, if it cannot.
    pub open spec fn label_error(self, id: IdView, name: Seq<char>) -> Option<DomainErrorView> {
        if self.labels.contains_key(name) && self.labels[name] != id {
            Some(DomainErrorView::LabelAlreadyInUse(name))
        } else if !self.is_registered(id) {
            Some(DomainErrorView::UnknownId(id.text()))
        } else {
            None
        }
    }

    /// The registry after `id` is labeled `name`; the previous label of
    /// `id`, if any, is freed.
    pub open spec fn labeled(self, id: IdView, name: Seq<char>) -> RegistryView<S, T> {
        let freed = match self.label_of(id) {
            Some(o) => self.labels.remove(o),
            None => self.labels,
        };
        RegistryView {
            streams: if self.streams.contains_key(id) {
                self.streams.insert(id, stream_with_label(self.streams[id], Some(name)))
            } else {
                self.streams
            },
            servers: if !self.streams.contains_key(id) && self.servers.contains_key(id) {
                self.servers.insert(id, server_with_label(self.servers[id], Some(name)))
            } else {
                self.servers
            },
            labels: freed.insert(name, id),
            ipc_paths: self.ipc_paths,
        }
    }
}

proof fn lemma_labeled_consistent<S, T>(v: RegistryView<S, T>, id: IdView, name: Seq<char>)
    requires
        v.consistent(),
        v.label_error(id, name) is None,
    ensures
        v.labeled(id, name).consistent(),
{
    let w = v.labeled(id, name);
    assert(w.streams.dom() =~= v.streams.dom());
    assert(w.servers.dom() =~= v.servers.dom());
    assert forall|x: IdView| x != id implies #[trigger] w.label_of(x) == v.label_of(x) by {
    }
    assert(w.label_of(id) == Some(name));
    assert forall|n: Seq<char>| #[trigger] w.labels.contains_key(n) implies {
        &&& w.is_registered(w.labels[n])
        &&& w.label_of(w.labels[n]) == Some(n)
    } by {
        if n != name {
            let x = v.labels[n];
            assert(v.label_of(x) == Some(n));
            if x == id {
                assert(v.label_of(id) == Some(n));
            }
        }
    }
    assert forall|x: IdView| #[trigger] w.is_registered(x) implies match w.label_of(x) {
        Some(n) => w.labels.contains_key(n) && w.labels[n] == x,
        None => true,
    } by {
        if x != id {
            assert(v.is_registered(x));
            match v.label_of(x) {
                Some(n) => {
                    assert(v.labels[n] == x);
                    if n == name {
                        assert(v.labels.contains_key(name) && v.labels[name] != id);
                    }
                    match v.label_of(id) {
                        Some(o) => {
                            assert(v.labels[o] == id);
                        },
                        None => {},
                    }
                },
                None => {},
            }
        }
    }
    assert forall|p: IdView, c: IdView|
        #![trigger w.servers[p].children.contains(c)]
        w.servers.contains_key(p) && w.servers[p].children.contains(c) implies {
        &&& w.streams.contains_key(c)
        &&& w.streams[c].parent == Some(p)
    } by {
        assert(v.servers[p].children == w.servers[p].children);
    }
    assert forall|p: IdView, k: int|
        #![trigger w.servers[p].bases[k]]
        w.servers.contains_key(p) && w.servers[p].bases.contains_key(k) implies match w.servers[p].bases[k] {
            Some(n) => n >= 1,
            None => true,
        } by {
        assert(w.servers[p].bases == v.servers[p].bases);
    }
    assert forall|x: IdView| #[trigger]
        w.streams.contains_key(x) implies w.accepted_ok(x, w.streams[x].parent) by {
        assert(v.accepted_ok(x, v.streams[x].parent));
        match accepted_origin(x) {
            Some((srv, key, d)) => {
                assert(w.servers[srv].bases == v.servers[srv].bases);
            },
            None => {},
        }
    }
}

/// The stream after it was closed.
pub open spec fn closed_stream<S>(h: StreamView<S>) -> StreamView<S> {
    StreamView { state: StateView { status: ConnectionStatus::Closed, ..h.state }, ..h }
}

/// The server after it was closed.
pub open spec fn closed_server<T>(h: ServerView<T>) -> ServerView<T> {
    ServerView { state: StateView { status: ConnectionStatus::Closed, ..h.state }, ..h }
}

impl<S, T> RegistryView<S, T> {
    /// What a freshly opened stream must satisfy to be registered: a new
    /// id that is not a server's, no label yet, a registered parent, and (for accepted ids) an id
    /// that its server's collision slot admits.
    pub open spec fn admits_stream(self, h: StreamView<S>) -> bool {
        &&& !h.state.id.is_server()
        &&& !self.is_registered(h.state.id)
        &&& h.state.label is None
        &&& match h.parent {
            Some(p) => self.servers.contains_key(p),
            None => true,
        }
        &&& self.accepted_ok(h.state.id, h.parent)
    }

    /// The registry with a new stream (added to its parent's children;
    /// its local socket path tracked).
    pub open spec fn with_stream(self, h: StreamView<S>) -> RegistryView<S, T> {
        let id = h.state.id;
        RegistryView {
            streams: self.streams.insert(id, h),
            servers: match h.parent {
                Some(p) => if self.servers.contains_key(p) {
                    self.servers.insert(
                        p,
                        ServerView { children: self.servers[p].children.insert(id), ..self.servers[p] },
                    )
                } else {
                    self.servers
                },
                None => self.servers,
            },
            labels: self.labels,
            ipc_paths: match h.local_ipc_path {
                Some(x) => self.ipc_paths.insert(x),
                None => self.ipc_paths,
            },
        }
    }

    /// What a freshly bound server must satisfy to be registered.
    pub open spec fn admits_server(self, h: ServerView<T>) -> bool {
        &&& h.state.id.is_server()
        &&& !self.is_registered(h.state.id)
        &&& h.state.label is None
        &&& h.children == Set::<IdView>::empty()
        &&& h.bases == Map::<int, Option<u32>>::empty()
    }

    /// The registry with a new server (its socket path tracked).
    pub open spec fn with_server(self, h: ServerView<T>) -> RegistryView<S, T> {
        RegistryView {
            streams: self.streams,
            servers: self.servers.insert(h.state.id, h),
            labels: self.labels,
            ipc_paths: match h.ipc_path {
                Some(x) => self.ipc_paths.insert(x),
                None => self.ipc_paths,
            },
        }
    }

    /// The registry after the streams in `k` are closed: they leave the
    /// stream table and their parents' children, their labels are freed
    /// and their local socket paths untracked.
    pub open spec fn without_streams(self, k: Set<IdView>) -> RegistryView<S, T> {
        RegistryView {
            streams: self.streams.remove_keys(k),
            servers: Map::new(
                |p: IdView| self.servers.contains_key(p),
                |p: IdView|
                    ServerView { children: self.servers[p].children.difference(k), ..self.servers[p] },
            ),
            labels: Map::new(
                |n: Seq<char>| self.labels.contains_key(n) && !k.contains(self.labels[n]),
                |n: Seq<char>| self.labels[n],
            ),
            ipc_paths: self.ipc_paths.filter(
                |x: Seq<char>|
                    !(exists|c: IdView|
                        k.contains(c) && #[trigger] self.streams.contains_key(c)
                            && self.streams[c].local_ipc_path == Some(x)),
            ),
        }
    }
}

proof fn lemma_with_stream_consistent<S, T>(v: RegistryView<S, T>, h: StreamView<S>)
    requires
        v.consistent(),
        v.admits_stream(h),
    ensures
        v.with_stream(h).consistent(),
{
    let w = v.with_stream(h);
    let id = h.state.id;
    assert forall|x: IdView| x != id implies #[trigger] w.label_of(x) == v.label_of(x) by {
    }
    assert forall|x: IdView| #[trigger] w.streams.contains_key(x) implies match w.streams[x].parent {
        Some(p) => w.servers.contains_key(p) && w.servers[p].children.contains(x),
        None => true,
    } by {
        if x != id {
            match v.streams[x].parent {
                Some(p) => {
                    assert(v.servers[p].children.contains(x));
                },
                None => {},
            }
        }
    }
    assert forall|p: IdView, c: IdView|
        #![trigger w.servers[p].children.contains(c)]
        w.servers.contains_key(p) && w.servers[p].children.contains(c) implies {
        &&& w.streams.contains_key(c)
        &&& w.streams[c].parent == Some(p)
    } by {
        if c != id {
            assert(v.servers[p].children.contains(c));
        } else {
            if h.parent != Some(p) {
                assert(v.servers[p].children.contains(c));
            }
        }
    }
    assert forall|n: Seq<char>| #[trigger] w.labels.contains_key(n) implies {
        &&& w.is_registered(w.labels[n])
        &&& w.label_of(w.labels[n]) == Some(n)
    } by {
        assert(v.is_registered(v.labels[n]));
    }
    assert forall|x: IdView| #[trigger] w.is_registered(x) implies match w.label_of(x) {
        Some(n) => w.labels.contains_key(n) && w.labels[n] == x,
        None => true,
    } by {
        if x != id {
            assert(v.is_registered(x));
        }
    }
    assert forall|p: IdView, k: int|
        #![trigger w.servers[p].bases[k]]
        w.servers.contains_key(p) && w.servers[p].bases.contains_key(k) implies match w.servers[p].bases[k] {
            Some(n) => n >= 1,
            None => true,
        } by {
        assert(w.servers[p].bases == v.servers[p].bases);
    }
    assert forall|x: IdView| #[trigger]
        w.streams.contains_key(x) implies w.accepted_ok(x, w.streams[x].parent) by {
        if x != id {
            assert(v.accepted_ok(x, v.streams[x].parent));
        }
        match accepted_origin(x) {
            Some((srv, key, d)) => {
                if v.servers.contains_key(srv) {
                    assert(w.servers[srv].bases == v.servers[srv].bases);
                }
            },
            None => {},
        }
    }
}

proof fn lemma_with_server_consistent<S, T>(v: RegistryView<S, T>, h: ServerView<T>)
    requires
        v.consistent(),
        v.admits_server(h),
    ensures
        v.with_server(h).consistent(),
{
    let w = v.with_server(h);
    let id = h.state.id;
    assert forall|x: IdView| x != id implies #[trigger] w.label_of(x) == v.label_of(x) by {
    }
    assert forall|x: IdView| #[trigger] w.streams.contains_key(x) implies match w.streams[x].parent {
        Some(p) => w.servers.contains_key(p) && w.servers[p].children.contains(x),
        None => true,
    } by {
        match v.streams[x].parent {
            Some(p) => {
                assert(v.servers[p].children.contains(x));
            },
            None => {},
        }
    }
    assert forall|p: IdView, c: IdView|
        #![trigger w.servers[p].children.contains(c)]
        w.servers.contains_key(p) && w.servers[p].children.contains(c) implies {
        &&& w.streams.contains_key(c)
        &&& w.streams[c].parent == Some(p)
    } by {
        if p != id {
            assert(v.servers[p].children.contains(c));
        }
    }
    assert forall|n: Seq<char>| #[trigger] w.labels.contains_key(n) implies {
        &&& w.is_registered(w.labels[n])
        &&& w.label_of(w.labels[n]) == Some(n)
    } by {
        assert(v.is_registered(v.labels[n]));
    }
    assert forall|x: IdView| #[trigger] w.is_registered(x) implies match w.label_of(x) {
        Some(n) => w.labels.contains_key(n) && w.labels[n] == x,
        None => true,
    } by {
        if x != id {
            assert(v.is_registered(x));
        }
    }
    assert forall|p: IdView, k: int|
        #![trigger w.servers[p].bases[k]]
        w.servers.contains_key(p) && w.servers[p].bases.contains_key(k) implies match w.servers[p].bases[k] {
            Some(n) => n >= 1,
            None => true,
        } by {
        if p != id {
            assert(w.servers[p].bases == v.servers[p].bases);
        }
    }
    assert forall|x: IdView| #[trigger]
        w.streams.contains_key(x) implies w.accepted_ok(x, w.streams[x].parent) by {
        assert(v.accepted_ok(x, v.streams[x].parent));
        match accepted_origin(x) {
            Some((srv, key, d)) => {
                assert(w.servers[srv].bases == v.servers[srv].bases);
            },
            None => {},
        }
    }
}

proof fn lemma_without_streams_consistent<S, T>(v: RegistryView<S, T>, k: Set<IdView>)
    requires
        v.consistent(),
        forall|c: IdView| #[trigger] k.contains(c) ==> !v.servers.contains_key(c),
    ensures
        v.without_streams(k).consistent(),
{
    let w = v.without_streams(k);
    assert forall|x: IdView| #[trigger] w.streams.contains_key(x) implies w.label_of(x) == v.label_of(x) by {
    }
    assert forall|x: IdView| #[trigger] w.servers.contains_key(x) implies w.label_of(x) == v.label_of(x) by {
    }
    assert forall|x: IdView| #[trigger] w.streams.contains_key(x) implies match w.streams[x].parent {
        Some(p) => w.servers.contains_key(p) && w.servers[p].children.contains(x),
        None => true,
    } by {
        match v.streams[x].parent {
            Some(p) => {
                assert(v.servers[p].children.contains(x));
            },
            None => {},
        }
    }
    assert forall|p: IdView, c: IdView|
        #![trigger w.servers[p].children.contains(c)]
        w.servers.contains_key(p) && w.servers[p].children.contains(c) implies {
        &&& w.streams.contains_key(c)
        &&& w.streams[c].parent == Some(p)
    } by {
        assert(v.servers[p].children.contains(c));
    }
    assert forall|n: Seq<char>| #[trigger] w.labels.contains_key(n) implies {
        &&& w.is_registered(w.labels[n])
        &&& w.label_of(w.labels[n]) == Some(n)
    } by {
        let x = v.labels[n];
        assert(v.is_registered(x));
        assert(v.label_of(x) == Some(n));
    }
    assert forall|x: IdView| #[trigger] w.is_registered(x) implies match w.label_of(x) {
        Some(n) => w.labels.contains_key(n) && w.labels[n] == x,
        None => true,
    } by {
        assert(v.is_registered(x));
        assert(w.label_of(x) == v.label_of(x));
        assert(!k.contains(x));
    }
    assert forall|p: IdView, q: int|
        #![trigger w.servers[p].bases[q]]
        w.servers.contains_key(p) && w.servers[p].bases.contains_key(q) implies match w.servers[p].bases[q] {
            Some(n) => n >= 1,
            None => true,
        } by {
        assert(w.servers[p].bases == v.servers[p].bases);
    }
    assert forall|x: IdView| #[trigger]
        w.streams.contains_key(x) implies w.accepted_ok(x, w.streams[x].parent) by {
        assert(v.accepted_ok(x, v.streams[x].parent));
        match accepted_origin(x) {
            Some((srv, key, d)) => {
                assert(w.servers[srv].bases == v.servers[srv].bases);
            },
            None => {},
        }
    }
}

impl<S, T> RegistryView<S, T> {
    /// The registry after the server `id` is closed: its accepted children
    /// are closed with it (cascade), its label is freed and its socket
    /// path untracked.
    pub open spec fn without_server(self, id: IdView) -> RegistryView<S, T> {
        let srv = self.servers[id];
        let w = self.without_streams(srv.children);
        RegistryView {
            streams: w.streams,
            servers: w.servers.remove(id),
            labels: match srv.state.label {
                Some(n) => w.labels.remove(n),
                None => w.labels,
            },
            ipc_paths: match srv.ipc_path {
                Some(x) => w.ipc_paths.remove(x),
                None => w.ipc_paths,
            },
        }
    }
}

proof fn lemma_without_streams_step<S, T>(v: RegistryView<S, T>, k: Set<IdView>, c: IdView)
    requires
        v.streams.contains_key(c),
        !k.contains(c),
    ensures
        v.without_streams(k).without_streams(set![c]) == v.without_streams(k.insert(c)),
{
    let a = v.without_streams(k).without_streams(set![c]);
    let b = v.without_streams(k.insert(c));
    assert(a.streams =~= b.streams);
    assert forall|p: IdView| #[trigger] a.servers.contains_key(p) implies a.servers[p] == b.servers[p] by {
        assert(v.servers[p].children.difference(k).difference(set![c]) =~= v.servers[p].children.difference(k.insert(c)));
    }
    assert(a.servers =~= b.servers);
    assert(a.labels =~= b.labels);
    let w = v.without_streams(k);
    assert forall|x: Seq<char>| a.ipc_paths.contains(x) <==> b.ipc_paths.contains(x) by {
        if b.ipc_paths.contains(x) {
            if exists|d: IdView| set![c].contains(d) && #[trigger] w.streams.contains_key(d) && w.streams[d].local_ipc_path == Some(x) {
                assert(k.insert(c).contains(c) && v.streams.contains_key(c));
            }
        }
        if a.ipc_paths.contains(x) {
            if exists|d: IdView| k.insert(c).contains(d) && #[trigger] v.streams.contains_key(d) && v.streams[d].local_ipc_path == Some(x) {
                let d = choose|d: IdView| k.insert(c).contains(d) && #[trigger] v.streams.contains_key(d) && v.streams[d].local_ipc_path == Some(x);
                if d == c {
                    assert(set![c].contains(c) && w.streams.contains_key(c));
                } else {
                    assert(k.contains(d));
                }
            }
        }
    }
    assert(a.ipc_paths =~= b.ipc_paths);
}

proof fn lemma_without_server_consistent<S, T>(v: RegistryView<S, T>, id: IdView)
    requires
        v.consistent(),
        v.servers.contains_key(id),
    ensures
        v.without_server(id).consistent(),
{
    let srv = v.servers[id];
    let kids = srv.children;
    assert forall|c: IdView| #[trigger] kids.contains(c) implies !v.servers.contains_key(c) by {
        assert(v.streams.contains_key(c));
    }
    lemma_without_streams_consistent(v, kids);
    let w = v.without_streams(kids);
    let z = v.without_server(id);
    assert(w.servers[id].children =~= Set::<IdView>::empty());
    assert forall|x: IdView| #[trigger] w.streams.contains_key(x) implies w.streams[x].parent != Some(id) by {
        if v.streams[x].parent == Some(id) {
            assert(v.servers[id].children.contains(x));
        }
    }
    assert forall|x: IdView| x != id implies #[trigger] z.label_of(x) == w.label_of(x) by {
    }
    assert(v.is_registered(id));
    assert(w.label_of(id) == srv.state.label);
    assert forall|x: IdView| #[trigger] z.streams.contains_key(x) implies match z.streams[x].parent {
        Some(p) => z.servers.contains_key(p) && z.servers[p].children.contains(x),
        None => true,
    } by {
        assert(w.streams.contains_key(x));
    }
    assert forall|p: IdView, c: IdView|
        #![trigger z.servers[p].children.contains(c)]
        z.servers.contains_key(p) && z.servers[p].children.contains(c) implies {
        &&& z.streams.contains_key(c)
        &&& z.streams[c].parent == Some(p)
    } by {
        assert(w.servers[p].children.contains(c));
    }
    assert forall|n: Seq<char>| #[trigger] z.labels.contains_key(n) implies {
        &&& z.is_registered(z.labels[n])
        &&& z.label_of(z.labels[n]) == Some(n)
    } by {
        let x = w.labels[n];
        assert(w.labels.contains_key(n));
        assert(w.is_registered(x));
        if x == id {
            assert(w.label_of(id) == Some(n));
        }
    }
    assert forall|x: IdView| #[trigger] z.is_registered(x) implies match z.label_of(x) {
        Some(n) => z.labels.contains_key(n) && z.labels[n] == x,
        None => true,
    } by {
        assert(w.is_registered(x));
        match w.label_of(x) {
            Some(n) => {
                assert(w.labels[n] == x);
                match srv.state.label {
                    Some(m) => {
                        assert(w.labels.contains_key(m) && w.labels[m] == id);
                    },
                    None => {},
                }
            },
            None => {},
        }
    }
    assert forall|p: IdView, q: int|
        #![trigger z.servers[p].bases[q]]
        z.servers.contains_key(p) && z.servers[p].bases.contains_key(q) implies match z.servers[p].bases[q] {
            Some(n) => n >= 1,
            None => true,
        } by {
        assert(z.servers[p].bases == w.servers[p].bases);
    }
    assert forall|x: IdView| #[trigger]
        z.streams.contains_key(x) implies z.accepted_ok(x, z.streams[x].parent) by {
        assert(w.accepted_ok(x, w.streams[x].parent));
        match accepted_origin(x) {
            Some((s2, key, d)) => {
                assert(s2 != id);
                assert(z.servers[s2] == w.servers[s2]);
            },
            None => {},
        }
    }
}

/// An accepted id with another disambiguation suffix.
pub open spec fn with_disambig(id: IdView, d: Option<u32>) -> IdView {
    match id {
        IdView::AcceptedTcp { parent_port, remote_port, disambig } => IdView::AcceptedTcp {
            parent_port,
            remote_port,
            disambig: d,
        },
        IdView::AcceptedIpc { parent_path, pid, disambig } => IdView::AcceptedIpc {
            parent_path,
            pid,
            disambig: d,
        },
        _ => id,
    }
}

/// The server with its collision slot for `key` set to `n`.
pub open spec fn server_with_slot<T>(h: ServerView<T>, key: int, n: Option<u32>) -> ServerView<T> {
    ServerView { bases: h.bases.insert(key, n), ..h }
}

impl<S, T> RegistryView<S, T> {
    /// The registry after the stream `old` is renamed `new`: same handle,
    /// new key, its parent's children and its label follow.
    pub open spec fn renamed(self, old: IdView, new: IdView) -> RegistryView<S, T> {
        if !self.streams.contains_key(old) {
            self
        } else {
            let h = self.streams[old];
            RegistryView {
                streams: self.streams.remove(old).insert(
                    new,
                    StreamView { state: StateView { id: new, ..h.state }, ..h },
                ),
                servers: match h.parent {
                    Some(p) => if self.servers.contains_key(p) {
                        self.servers.insert(
                            p,
                            ServerView {
                                children: self.servers[p].children.remove(old).insert(new),
                                ..self.servers[p]
                            },
                        )
                    } else {
                        self.servers
                    },
                    None => self.servers,
                },
                labels: match h.state.label {
                    Some(n) => self.labels.insert(n, new),
                    None => self.labels,
                },
                ipc_paths: self.ipc_paths,
            }
        }
    }

    /// The registry with the collision slot `key` of server `parent` set.
    pub open spec fn with_slot(self, parent: IdView, key: int, n: Option<u32>) -> RegistryView<
        S,
        T,
    > {
        RegistryView {
            servers: self.servers.insert(parent, server_with_slot(self.servers[parent], key, n)),
            ..self
        }
    }

    /// An id can be allocated from the unsuffixed accepted id `base`: its
    /// server is registered and the suffix counter is not exhausted.
    pub open spec fn can_allocate(self, base: IdView) -> bool {
        match accepted_origin(base) {
            Some((p, key, d)) => {
                &&& d is None
                &&& self.servers.contains_key(p)
                &&& !(self.servers[p].bases.contains_key(key) && self.servers[p].bases[key] == Some(
                    u32::MAX,
                ))
            },
            None => false,
        }
    }

    /// Allocation of the final id of a connection accepted from `base`:
    /// the new registry, the id, and the (new, old) pair of a rename.
    ///
    /// * first connection from a base: the unsuffixed id;
    /// * second: the first one is renamed `#1`, the new one is `#2`;
    /// * later ones: the next suffix.
    pub open spec fn allocation(self, base: IdView) -> (RegistryView<S, T>, IdView, Option<(IdView, IdView)>) {
        let (p, key, d) = accepted_origin(base)->0;
        let bases = self.servers[p].bases;
        if !bases.contains_key(key) {
            (self.with_slot(p, key, None), base, None)
        } else {
            match bases[key] {
                None => {
                    let first = with_disambig(base, Some(1));
                    (
                        self.renamed(base, first).with_slot(p, key, Some(3)),
                        with_disambig(base, Some(2)),
                        Some((first, base)),
                    )
                },
                Some(n) => (
                    self.with_slot(p, key, Some((n + 1) as u32)),
                    with_disambig(base, Some(n)),
                    None,
                ),
            }
        }
    }
}

proof fn lemma_origin_with_disambig(base: IdView, d: Option<u32>)
    requires
        accepted_origin(base) is Some,
    ensures
        accepted_origin(with_disambig(base, d)) is Some,
        origin_server(with_disambig(base, d)) == origin_server(base),
        origin_key(with_disambig(base, d)) == origin_key(base),
        origin_disambig(with_disambig(base, d)) == d,
        with_disambig(with_disambig(base, d), None) == with_disambig(base, None),
        origin_disambig(base) is None ==> with_disambig(base, None) == base,
        forall|e: Option<u32>| with_disambig(base, d) == with_disambig(base, e) ==> d == e,
{
}

proof fn lemma_same_origin(x: IdView, base: IdView)
    requires
        accepted_origin(x) is Some,
        accepted_origin(base) is Some,
        origin_disambig(base) is None,
        origin_server(x) == origin_server(base),
        origin_key(x) == origin_key(base),
    ensures
        x == with_disambig(base, origin_disambig(x)),
{
}

proof fn lemma_allocation<S, T>(v: RegistryView<S, T>, base: IdView)
    requires
        v.consistent(),
        v.can_allocate(base),
    ensures
        ({
            let (w, id, ren) = v.allocation(base);
            let p = origin_server(base);
            &&& w.consistent()
            &&& !v.is_registered(id)
            &&& !w.is_registered(id)
            &&& w.accepted_ok(id, Some(p))
            &&& w.servers.contains_key(p)
        }),
{
    let (p, key, d0) = accepted_origin(base)->0;
    let bases = v.servers[p].bases;
    let (w, id, ren) = v.allocation(base);
    assert(p.is_server());
    // No registered id shares the base unless the slot admits it.
    assert forall|x: IdView|
        #[trigger] v.streams.contains_key(x) && accepted_origin(x) is Some && origin_server(x) == p
            && origin_key(x) == key implies slot_admits(bases, key, origin_disambig(x))
        && v.streams[x].parent == Some(p) by {
        assert(v.accepted_ok(x, v.streams[x].parent));
    }
    assert forall|x: IdView| #[trigger] v.servers.contains_key(x) implies accepted_origin(x) is None by {
        assert(x.is_server());
    }
    lemma_origin_with_disambig(base, d0);
    if !bases.contains_key(key) {
        assert(id == base);
        assert(!v.streams.contains_key(id)) by {
            if v.streams.contains_key(id) {
                lemma_same_origin(id, base);
            }
        }
        lemma_with_slot_consistent(v, p, key, None);
    } else if bases[key] is None {
        let first = with_disambig(base, Some(1));
        lemma_origin_with_disambig(base, Some(1));
        lemma_origin_with_disambig(base, Some(2));
        assert(!v.is_registered(first)) by {
            if v.streams.contains_key(first) {
                assert(slot_admits(bases, key, Some(1)));
            }
        }
        assert(!v.is_registered(id)) by {
            if v.streams.contains_key(id) {
                assert(slot_admits(bases, key, Some(2)));
            }
        }
        lemma_rename_then_slot(v, base, first, key);
    } else {
        let n = bases[key]->0;
        lemma_origin_with_disambig(base, Some(n));
        assert(!v.is_registered(id)) by {
            if v.streams.contains_key(id) {
                assert(slot_admits(bases, key, Some(n)));
            }
        }
        assert(n >= 1) by {
            assert(v.servers[p].bases.contains_key(key));
        }
        lemma_with_slot_consistent(v, p, key, Some((n + 1) as u32));
    }
}

/// Setting a collision slot keeps the invariant when every stream the
/// slot governed is still admitted.
proof fn lemma_with_slot_consistent<S, T>(v: RegistryView<S, T>, p: IdView, key: int, n: Option<u32>)
    requires
        v.consistent(),
        v.servers.contains_key(p),
        match n {
            Some(m) => m >= 1,
            None => true,
        },
        forall|x: IdView|
            #[trigger] v.streams.contains_key(x) && accepted_origin(x) is Some && origin_server(x)
                == p && origin_key(x) == key ==> slot_admits(
                v.servers[p].bases.insert(key, n),
                key,
                origin_disambig(x),
            ),
    ensures
        v.with_slot(p, key, n).consistent(),
{
    let w = v.with_slot(p, key, n);
    assert(w.servers.dom() =~= v.servers.dom());
    assert forall|x: IdView| #[trigger] w.label_of(x) == v.label_of(x) by {
    }
    assert forall|q: IdView, c: IdView|
        #![trigger w.servers[q].children.contains(c)]
        w.servers.contains_key(q) && w.servers[q].children.contains(c) implies {
        &&& w.streams.contains_key(c)
        &&& w.streams[c].parent == Some(q)
    } by {
        assert(v.servers[q].children.contains(c));
    }
    assert forall|x: IdView| #[trigger] w.streams.contains_key(x) implies match w.streams[x].parent {
        Some(q) => w.servers.contains_key(q) && w.servers[q].children.contains(x),
        None => true,
    } by {
        match v.streams[x].parent {
            Some(q) => {
                assert(v.servers[q].children.contains(x));
            },
            None => {},
        }
    }
    assert forall|n2: Seq<char>| #[trigger] w.labels.contains_key(n2) implies {
        &&& w.is_registered(w.labels[n2])
        &&& w.label_of(w.labels[n2]) == Some(n2)
    } by {
        assert(v.is_registered(v.labels[n2]));
    }
    assert forall|x: IdView| #[trigger] w.is_registered(x) implies match w.label_of(x) {
        Some(m) => w.labels.contains_key(m) && w.labels[m] == x,
        None => true,
    } by {
        assert(v.is_registered(x));
    }
    assert forall|q: IdView, k: int|
        #![trigger w.servers[q].bases[k]]
        w.servers.contains_key(q) && w.servers[q].bases.contains_key(k) implies match w.servers[q].bases[k] {
            Some(m) => m >= 1,
            None => true,
        } by {
        if q != p || k != key {
            assert(v.servers[q].bases.contains_key(k));
        }
    }
    assert forall|x: IdView| #[trigger]
        w.streams.contains_key(x) implies w.accepted_ok(x, w.streams[x].parent) by {
        assert(v.accepted_ok(x, v.streams[x].parent));
        match accepted_origin(x) {
            Some((srv, k, d)) => {
                if srv == p && k == key {
                } else if srv == p {
                    assert(w.servers[srv].bases[k] == v.servers[srv].bases[k]);
                }
            },
            None => {},
        }
    }
}

/// The second connection from a base: the unsuffixed stream (if still
/// open) becomes `#1` and the slot moves to suffixes.
proof fn lemma_rename_then_slot<S, T>(v: RegistryView<S, T>, base: IdView, first: IdView, key: int)
    requires
        v.consistent(),
        accepted_origin(base) is Some,
        origin_disambig(base) is None,
        origin_key(base) == key,
        v.servers.contains_key(origin_server(base)),
        v.servers[origin_server(base)].bases.contains_key(key),
        v.servers[origin_server(base)].bases[key] is None,
        first == with_disambig(base, Some(1)),
        !v.is_registered(first),
        forall|x: IdView|
            #[trigger] v.streams.contains_key(x) && accepted_origin(x) is Some && origin_server(x)
                == origin_server(base) && origin_key(x) == key ==> x == base,
    ensures
        v.renamed(base, first).with_slot(origin_server(base), key, Some(3)).consistent(),
        !v.renamed(base, first).with_slot(origin_server(base), key, Some(3)).is_registered(
            with_disambig(base, Some(2)),
        ),
{
    let p = origin_server(base);
    lemma_origin_with_disambig(base, Some(1));
    lemma_origin_with_disambig(base, Some(2));
    let u = v.renamed(base, first);
    let w = u.with_slot(p, key, Some(3));
    if !v.streams.contains_key(base) {
        assert(u == v);
        assert forall|x: IdView|
            #[trigger] v.streams.contains_key(x) && accepted_origin(x) is Some && origin_server(x)
                == p && origin_key(x) == key implies slot_admits(
            v.servers[p].bases.insert(key, Some(3)),
            key,
            origin_disambig(x),
        ) by {
            assert(x == base);
        }
        lemma_with_slot_consistent(v, p, key, Some(3));
        assert(!w.streams.contains_key(with_disambig(base, Some(2)))) by {
            if w.streams.contains_key(with_disambig(base, Some(2))) {
                assert(v.streams.contains_key(with_disambig(base, Some(2))));
            }
        }
    } else {
        let h = v.streams[base];
        assert(v.accepted_ok(base, h.parent));
        assert(h.parent == Some(p));
        assert(v.servers[p].children.contains(base));
        assert(v.is_registered(base));
        assert forall|x: IdView| x != base && x != first implies #[trigger] w.label_of(x) == v.label_of(x) by {
        }
        assert(w.label_of(first) == v.label_of(base));
        assert(!w.streams.contains_key(base));
        assert(!w.servers.contains_key(base));
        assert(w.servers.dom() =~= v.servers.dom());
        assert forall|x: IdView| #[trigger] w.streams.contains_key(x) implies w.streams[x].state.id == x by {
        }
        assert forall|x: IdView| #[trigger] w.streams.contains_key(x) implies match w.streams[x].parent {
            Some(q) => w.servers.contains_key(q) && w.servers[q].children.contains(x),
            None => true,
        } by {
            if x != first {
                match v.streams[x].parent {
                    Some(q) => {
                        assert(v.servers[q].children.contains(x));
                    },
                    None => {},
                }
            }
        }
        assert forall|q: IdView, c: IdView|
            #![trigger w.servers[q].children.contains(c)]
            w.servers.contains_key(q) && w.servers[q].children.contains(c) implies {
            &&& w.streams.contains_key(c)
            &&& w.streams[c].parent == Some(q)
        } by {
            if c != first {
                assert(v.servers[q].children.contains(c));
                if c == base {
                    assert(q == p);
                }
            }
        }
        assert forall|n: Seq<char>| #[trigger] w.labels.contains_key(n) implies {
            &&& w.is_registered(w.labels[n])
            &&& w.label_of(w.labels[n]) == Some(n)
        } by {
            if h.state.label == Some(n) {
            } else {
                let x = v.labels[n];
                assert(v.is_registered(x));
                assert(v.label_of(x) == Some(n));
                if x == base {
                    assert(v.label_of(base) == h.state.label);
                }
            }
        }
        assert forall|x: IdView| #[trigger] w.is_registered(x) implies match w.label_of(x) {
            Some(n) => w.labels.contains_key(n) && w.labels[n] == x,
            None => true,
        } by {
            if x != first {
                assert(v.is_registered(x));
                match v.label_of(x) {
                    Some(n) => {
                        assert(v.labels[n] == x);
                        if h.state.label == Some(n) {
                            assert(v.label_of(base) == Some(n));
                            assert(v.labels[n] == base);
                        }
                    },
                    None => {},
                }
            } else {
                match h.state.label {
                    Some(n) => {},
                    None => {},
                }
            }
        }
        assert forall|q: IdView, k: int|
            #![trigger w.servers[q].bases[k]]
            w.servers.contains_key(q) && w.servers[q].bases.contains_key(k) implies match w.servers[q].bases[k] {
                Some(m) => m >= 1,
                None => true,
            } by {
            if q != p || k != key {
                assert(v.servers[q].bases.contains_key(k));
            }
        }
        assert forall|x: IdView| #[trigger]
            w.streams.contains_key(x) implies w.accepted_ok(x, w.streams[x].parent) by {
            if x == first {
                assert(slot_admits(w.servers[p].bases, key, Some(1)));
            } else {
                assert(v.streams.contains_key(x));
                assert(v.accepted_ok(x, v.streams[x].parent));
                match accepted_origin(x) {
                    Some((srv, k, d)) => {
                        if srv == p && k == key {
                            assert(x == base);
                        } else if srv == p {
                            assert(w.servers[srv].bases[k] == v.servers[srv].bases[k]);
                        }
                    },
                    None => {},
                }
            }
        }
        assert forall|x: IdView| !(#[trigger] w.streams.contains_key(x) && w.servers.contains_key(x)) by {
            if w.streams.contains_key(x) && w.servers.contains_key(x) {
                if x == first {
                    assert(v.servers.contains_key(first));
                } else {
                    assert(v.streams.contains_key(x));
                }
            }
        }
        assert forall|x: IdView| #[trigger] w.servers.contains_key(x) implies w.servers[x].state.id == x by {
        }
        assert forall|x: IdView| #[trigger] w.servers.contains_key(x) implies x.is_server() by {
        }
        assert(!w.streams.contains_key(with_disambig(base, Some(2)))) by {
            if w.streams.contains_key(with_disambig(base, Some(2))) {
                assert(v.streams.contains_key(with_disambig(base, Some(2))));
            }
        }
    }
}

/// The view of an optional event.
pub open spec fn opt_event_view(e: Option<NetEvent>) -> Option<NetEventView> {
    match e {
        Some(x) => Some(x@),
        None => None,
    }
}

/// `new` is `old` after the allocation from `base` that gave `id` and the
/// rename event `ev`; the id is fresh and its stream would be admitted.
pub open spec fn allocated<S, T>(
    old: RegistryView<S, T>,
    new: RegistryView<S, T>,
    base: IdView,
    id: IdView,
    ev: Option<NetEventView>,
) -> bool {
    &&& new == old.allocation(base).0
    &&& id == old.allocation(base).1
    &&& match ev {
        Some(e) => e matches NetEventView::Renamed { new_id, old_id } && old.allocation(base).2
            == Some((new_id, old_id)),
        None => old.allocation(base).2 is None,
    }
    &&& !old.is_registered(id)
    &&& !new.is_registered(id)
    &&& new.accepted_ok(id, Some(origin_server(base)))
}

/// Which kind of id is preferred when several registered ids are written
/// alike: clients, then accepted connections, then servers; TCP before
/// IPC in each.
pub open spec fn kind_rank(id: IdView) -> int {
    match id {
        IdView::TcpClient { .. } => 0,
        IdView::IpcClient { .. } => 1,
        IdView::AcceptedTcp { .. } => 2,
        IdView::AcceptedIpc { .. } => 3,
        IdView::TcpServer { .. } => 4,
        IdView::IpcServer { .. } => 5,
    }
}

/// The rank of an id's kind.
pub fn rank_of(id: &ConnectionId) -> (r: u8)
    ensures
        r as int == kind_rank(id@),
{
    match id {
        ConnectionId::TcpClient { .. } => 0,
        ConnectionId::IpcClient { .. } => 1,
        ConnectionId::AcceptedTcp { .. } => 2,
        ConnectionId::AcceptedIpc { .. } => 3,
        ConnectionId::TcpServer { .. } => 4,
        ConnectionId::IpcServer { .. } => 5,
    }
}

impl<S, T> RegistryView<S, T> {
    /// `id` is registered and is written `t`.
    pub open spec fn text_match(self, t: Seq<char>, id: IdView) -> bool {
        self.is_registered(id) && id.text() == t
    }

    /// The token `t` names `id`: labels first, then the id the token
    /// parses as (if registered), then a registered id written `t`, of the
    /// kind that `kind_rank` puts first among those written `t`.
    pub open spec fn resolves(self, t: Seq<char>, id: IdView) -> bool {
        if self.labels.contains_key(t) {
            id == self.labels[t]
        } else if token_id(t) is Some && self.is_registered(token_id(t)->0) {
            id == token_id(t)->0
        } else {
            &&& self.text_match(t, id)
            &&& forall|o: IdView| #[trigger] self.text_match(t, o) ==> kind_rank(id) <= kind_rank(o)
        }
    }

    /// Some registered id is named by the token `t`.
    pub open spec fn resolvable(self, t: Seq<char>) -> bool {
        ||| self.labels.contains_key(t)
        ||| (token_id(t) is Some && self.is_registered(token_id(t)->0))
        ||| exists|id: IdView| self.text_match(t, id)
    }
}

/// The ids of a sequence of server handles.
pub open spec fn server_handle_ids<T>(s: Seq<ServerHandle<T>>) -> Seq<IdView> {
    s.map_values(|h: ServerHandle<T>| h.state.id@)
}

/// The socket paths that a set of closed handles carries.
pub open spec fn handle_paths<S, T>(servers: Seq<ServerHandle<T>>, streams: Seq<StreamHandle<S>>) -> Set<Seq<char>> {
    Set::new(
        |x: Seq<char>|
            (exists|i: int| 0 <= i < servers.len() && #[trigger] servers[i]@.ipc_path == Some(x))
                || (exists|i: int| 0 <= i < streams.len() && #[trigger] streams[i]@.local_ipc_path == Some(x)),
    )
}

impl<S, T> Registry<S, T> {
    pub open spec fn stream_views(&self) -> Seq<StreamView<S>> {
        self.streams@.map_values(|h: StreamHandle<S>| h@)
    }

    pub open spec fn server_views(&self) -> Seq<ServerView<T>> {
        self.servers@.map_values(|h: ServerHandle<T>| h@)
    }

    pub open spec fn label_views(&self) -> Seq<(Seq<char>, IdView)> {
        self.labels@.map_values(|e: LabelEntry| (e.name@, e.id@))
    }

    pub open spec fn path_views(&self) -> Seq<Seq<char>> {
        self.ipc_paths@.map_values(|p: String| p@)
    }

    /// The registry is well formed: its tables have unique keys and the
    /// state they describe is consistent.
    #[verifier::opaque]
    pub open spec fn wf(&self) -> bool {
        &&& self.wf_tables()
        &&& self@.consistent()
    }

    /// The tables have unique keys.
    pub open spec fn wf_tables(&self) -> bool {
        &&& unique_keys(self.stream_views(), stream_key_fn())
        &&& unique_keys(self.server_views(), server_key_fn())
        &&& unique_keys(self.label_views(), label_key_fn())
        &&& self.path_views().no_duplicates()
        &&& forall|i: int| 0 <= i < self.servers@.len() ==> #[trigger] self.servers@[i].wf()
    }
}

impl<S, T> View for Registry<S, T> {
    type V = RegistryView<S, T>;

    open spec fn view(&self) -> RegistryView<S, T> {
        RegistryView {
            streams: key_map(self.stream_views(), stream_key_fn(), same_fn()),
            servers: key_map(self.server_views(), server_key_fn(), same_fn()),
            labels: key_map(self.label_views(), label_key_fn(), label_id_fn()),
            ipc_paths: self.path_views().to_set(),
        }
    }
}

// ---------------------------------------------------------------------
// Construction and lookups
// ---------------------------------------------------------------------

impl<S, T> Registry<S, T> {
    /// An empty registry.
    pub fn new() -> (r: Registry<S, T>)
        ensures
            r.wf(),
            r@.streams == Map::<IdView, StreamView<S>>::empty(),
            r@.servers == Map::<IdView, ServerView<T>>::empty(),
            r@.labels == Map::<Seq<char>, IdView>::empty(),
            r@.ipc_paths == Set::<Seq<char>>::empty(),
    {
        let r = Registry {
            streams: Vec::new(),
            servers: Vec::new(),
            labels: Vec::new(),
            ipc_paths: Vec::new(),
        };
        proof {
            lemma_key_map_empty(r.stream_views(), stream_key_fn(), same_fn());
            lemma_key_map_empty(r.server_views(), server_key_fn(), same_fn());
            lemma_key_map_empty(r.label_views(), label_key_fn(), label_id_fn());
            assert(r@.ipc_paths =~= Set::<Seq<char>>::empty());
            reveal(Registry::wf);
        }
        r
    }

    /// Position of the stream with this id.
    pub fn find_stream(&self, id: &ConnectionId) -> (r: Option<usize>)
        requires
            self.wf(),
        ensures
            match r {
                Some(i) => {
                    &&& i < self.streams@.len()
                    &&& self.streams@[i as int].state.id@ == id@
                    &&& self@.streams.contains_key(id@)
                    &&& self@.streams[id@] == self.streams@[i as int]@
                },
                None => !self@.streams.contains_key(id@),
            },
    {
        proof {
            reveal(Registry::wf);
        }
        let mut i: usize = 0;
        while i < self.streams.len()
            invariant
                0 <= i <= self.streams@.len(),
                forall|j: int| 0 <= j < i ==> self.streams@[j].state.id@ != id@,
                unique_keys(self.stream_views(), stream_key_fn()),
            decreases self.streams@.len() - i,
        {
            if self.streams[i].state.id.same(id) {
                proof {
                    assert(self.stream_views()[i as int] == self.streams@[i as int]@);
                    lemma_key_map_index(self.stream_views(), stream_key_fn(), same_fn(), i as int);
                }
                return Some(i);
            }
            i = i + 1;
        }
        proof {
            if self@.streams.contains_key(id@) {
                let j = key_index(self.stream_views(), stream_key_fn(), id@);
                assert(self.stream_views()[j] == self.streams@[j]@);
            }
        }
        None
    }

    /// Position of the server with this id.
    pub(crate) fn find_server(&self, id: &ConnectionId) -> (r: Option<usize>)
        requires
            self.wf(),
        ensures
            match r {
                Some(i) => {
                    &&& i < self.servers@.len()
                    &&& self.servers@[i as int].state.id@ == id@
                    &&& self@.servers.contains_key(id@)
                    &&& self@.servers[id@] == self.servers@[i as int]@
                },
                None => !self@.servers.contains_key(id@),
            },
    {
        proof {
            reveal(Registry::wf);
        }
        let mut i: usize = 0;
        while i < self.servers.len()
            invariant
                0 <= i <= self.servers@.len(),
                forall|j: int| 0 <= j < i ==> self.servers@[j].state.id@ != id@,
                unique_keys(self.server_views(), server_key_fn()),
            decreases self.servers@.len() - i,
        {
            if self.servers[i].state.id.same(id) {
                proof {
                    assert(self.server_views()[i as int] == self.servers@[i as int]@);
                    lemma_key_map_index(self.server_views(), server_key_fn(), same_fn(), i as int);
                }
                return Some(i);
            }
            i = i + 1;
        }
        proof {
            if self@.servers.contains_key(id@) {
                let j = key_index(self.server_views(), server_key_fn(), id@);
                assert(self.server_views()[j] == self.servers@[j]@);
            }
        }
        None
    }

    /// Position of the label with this name.
    pub(crate) fn find_label(&self, name: &str) -> (r: Option<usize>)
        requires
            self.wf(),
        ensures
            match r {
                Some(i) => {
                    &&& i < self.labels@.len()
                    &&& self.labels@[i as int].name@ == name@
                    &&& self@.labels.contains_key(name@)
                    &&& self@.labels[name@] == self.labels@[i as int].id@
                },
                None => !self@.labels.contains_key(name@),
            },
    {
        proof {
            reveal(Registry::wf);
        }
        let mut i: usize = 0;
        while i < self.labels.len()
            invariant
                0 <= i <= self.labels@.len(),
                forall|j: int| 0 <= j < i ==> self.labels@[j].name@ != name@,
                unique_keys(self.label_views(), label_key_fn()),
            decreases self.labels@.len() - i,
        {
            if str_eq(self.labels[i].name.as_str(), name) {
                proof {
                    assert(self.label_views()[i as int] == (
                    self.labels@[i as int].name@,
                    self.labels@[i as int].id@,
                    ));
                    lemma_key_map_index(self.label_views(), label_key_fn(), label_id_fn(), i as int);
                }
                return Some(i);
            }
            i = i + 1;
        }
        proof {
            if self@.labels.contains_key(name@) {
                let j = key_index(self.label_views(), label_key_fn(), name@);
                assert(self.label_views()[j].0 == self.labels@[j].name@);
            }
        }
        None
    }

    /// Whether a server with this id is registered.
    pub fn has_server(&self, id: &ConnectionId) -> (r: bool)
        requires
            self.wf(),
        ensures
            r == self@.servers.contains_key(id@),
    {
        self.find_server(id).is_some()
    }

    /// Whether a stream with this id is registered.
    pub fn has_stream(&self, id: &ConnectionId) -> (r: bool)
        requires
            self.wf(),
        ensures
            r == self@.streams.contains_key(id@),
    {
        self.find_stream(id).is_some()
    }

    /// The label of a registered id, if any.
    fn current_label(&self, id: &ConnectionId) -> (r: Option<String>)
        requires
            self.wf(),
        ensures
            r.deep_view() == self@.label_of(id@),
    {
        match self.find_stream(id) {
            Some(i) => {
                match &self.streams[i].state.label {
                    Some(l) => Some(l.clone()),
                    None => None,
                }
            },
            None => match self.find_server(id) {
                Some(i) => {
                    match &self.servers[i].state.label {
                        Some(l) => Some(l.clone()),
                        None => None,
                    }
                },
                None => None,
            },
        }
    }

    /// Set or replace a label.
    pub fn apply_label(&mut self, id: &ConnectionId, name: &str) -> (r: Result<(), DomainError>)
        requires
            old(self).wf(),
        ensures
            final(self).wf(),
            match r {
                Ok(()) => {
                    &&& old(self)@.label_error(id@, name@) is None
                    &&& final(self)@ == old(self)@.labeled(id@, name@)
                },
                Err(e) => {
                    &&& old(self)@.label_error(id@, name@) == Some(e@)
                    &&& final(self)@ == old(self)@
                },
            },
    {
        let ghost v = self@;
        match self.find_label(name) {
            Some(li) => {
                if !self.labels[li].id.same(id) {
                    return Err(DomainError::LabelAlreadyInUse(string_of(name)));
                }
            },
            None => {},
        }
        let si = self.find_stream(id);
        let vi = match si {
            Some(_) => None,
            None => self.find_server(id),
        };
        if si.is_none() && vi.is_none() {
            return Err(DomainError::UnknownId(id.to_string()));
        }
        let old_label = self.current_label(id);
        let old_index = match &old_label {
            Some(o) => self.find_label(o.as_str()),
            None => None,
        };
        proof {
            reveal(Registry::wf);
            lemma_labeled_consistent(v, id@, name@);
            match old_label {
                Some(o) => {
                    assert(v.labels.contains_key(o@));
                },
                None => {},
            }
        }
        let ghost lv0 = self.label_views();
        match old_index {
            Some(li) => {
                self.labels.remove(li);
                proof {
                    assert(self.label_views() =~= lv0.remove(li as int));
                    lemma_key_map_remove(lv0, label_key_fn(), label_id_fn(), li as int);
                }
            },
            None => {},
        }
        let ghost lv1 = self.label_views();
        let ghost sv0 = self.stream_views();
        let ghost rv0 = self.server_views();
        match si {
            Some(i) => {
                self.streams[i].state.label = Some(string_of(name));
                proof {
                    assert(self.stream_views() =~= sv0.update(i as int, stream_with_label(sv0[i as int], Some(name@))));
                    lemma_key_map_update(sv0, stream_key_fn(), same_fn(), i as int, stream_with_label(sv0[i as int], Some(name@)));
                    assert(self.server_views() =~= rv0);
                }
            },
            None => {
                match vi {
                    Some(j) => {
                        self.servers[j].state.label = Some(string_of(name));
                        proof {
                            assert(self.server_views() =~= rv0.update(j as int, server_with_label(rv0[j as int], Some(name@))));
                            lemma_key_map_update(rv0, server_key_fn(), same_fn(), j as int, server_with_label(rv0[j as int], Some(name@)));
                            assert(self.stream_views() =~= sv0);
                            assert forall|k: int| 0 <= k < self.servers@.len() implies #[trigger] self.servers@[k].wf() by {
                                if k != j {
                                    assert(self.servers@[k] == old(self).servers@[k]);
                                } else {
                                    assert(old(self).servers@[k].wf());
                                }
                            }
                        }
                    },
                    None => {},
                }
            },
        }
        let entry = LabelEntry { name: string_of(name), id: id.duplicate() };
        self.labels.push(entry);
        proof {
            assert(self.label_views() =~= lv1.push((name@, id@)));
            lemma_key_map_push(lv1, label_key_fn(), label_id_fn(), (name@, id@));
            assert(self.path_views() =~= old(self).path_views());
            assert(self@.streams =~= v.labeled(id@, name@).streams);
            assert(self@.servers =~= v.labeled(id@, name@).servers);
            assert(self@.labels =~= v.labeled(id@, name@).labels);
            assert(self@ == v.labeled(id@, name@));
        }
        Ok(())
    }

    /// Position of a tracked socket path.
    pub(crate) fn find_path(&self, x: &str) -> (r: Option<usize>)
        ensures
            match r {
                Some(i) => i < self.ipc_paths@.len() && self.path_views()[i as int] == x@,
                None => !self@.ipc_paths.contains(x@),
            },
    {
        let mut i: usize = 0;
        while i < self.ipc_paths.len()
            invariant
                0 <= i <= self.ipc_paths@.len(),
                forall|j: int| 0 <= j < i ==> self.path_views()[j] != x@,
            decreases self.ipc_paths@.len() - i,
        {
            if str_eq(self.ipc_paths[i].as_str(), x) {
                return Some(i);
            }
            i = i + 1;
        }
        proof {
            if self@.ipc_paths.contains(x@) {
                let j = choose|j: int| 0 <= j < self.path_views().len() && self.path_views()[j] == x@;
                assert(self.path_views()[j] == x@);
            }
        }
        None
    }

    /// Execute a parsed `Command::Label`.
    pub fn cmd_label(&mut self, id: &ConnectionId, name: &str) -> (r: CommandOutcome)
        requires
            old(self).wf(),
        ensures
            final(self).wf(),
            match old(self)@.label_error(id@, name@) {
                None => {
                    &&& final(self)@ == old(self)@.labeled(id@, name@)
                    &&& r.success
                    &&& r.message@ == "labeled "@ + id@.text() + " as "@ + name@
                },
                Some(e) => {
                    &&& final(self)@ == old(self)@
                    &&& !r.success
                    &&& r.message@ == e.message()
                },
            },
    {
        match self.apply_label(id, name) {
            Ok(()) => {
                let mut m = string_of("labeled ");
                push_str(&mut m, id.to_string().as_str());
                push_str(&mut m, " as ");
                push_str(&mut m, name);
                CommandOutcome::ok(m)
            },
            Err(e) => CommandOutcome::err(e.to_string()),
        }
    }

    /// Register a freshly opened stream (client or accepted).
    pub fn insert_stream(&mut self, handle: StreamHandle<S>)
        requires
            old(self).wf(),
            old(self)@.admits_stream(handle@),
        ensures
            final(self).wf(),
            final(self)@ == old(self)@.with_stream(handle@),
    {
        let ghost v = self@;
        let ghost h = handle@;
        let pj = match &handle.parent {
            Some(p) => self.find_server(p),
            None => None,
        };
        let pi = match &handle.local_ipc_path {
            Some(x) => self.find_path(x.as_str()),
            None => None,
        };
        proof {
            reveal(Registry::wf);
            lemma_with_stream_consistent(v, h);
        }
        let ghost rv0 = self.server_views();
        match pj {
            Some(j) => {
                let ghost old_children = self.servers@[j as int].children@;
                proof {
                    let p = h.parent->0;
                    assert(!v.servers[p].children.contains(h.state.id)) by {
                        if v.servers[p].children.contains(h.state.id) {
                            assert(v.streams.contains_key(h.state.id));
                        }
                    }
                    assert(!id_views(old_children).contains(h.state.id)) by {
                        if id_views(old_children).contains(h.state.id) {
                            let c = choose|c: int| 0 <= c < id_views(old_children).len() && id_views(old_children)[c] == h.state.id;
                            assert(id_views(old_children).to_set().contains(h.state.id));
                        }
                    }
                    assert(old(self).servers@[j as int].wf());
                    lemma_no_dup_push(id_views(old_children), h.state.id);
                }
                self.servers[j].children.push(handle.state.id.duplicate());
                proof {
                    assert(id_views(self.servers@[j as int].children@) =~= id_views(old_children).push(h.state.id));
                    let nv = ServerView { children: rv0[j as int].children.insert(h.state.id), ..rv0[j as int] };
                    assert(self.servers@[j as int]@ == nv);
                    assert(self.server_views() =~= rv0.update(j as int, nv));
                    lemma_key_map_update(rv0, server_key_fn(), same_fn(), j as int, nv);
                    assert forall|k: int| 0 <= k < self.servers@.len() implies #[trigger] self.servers@[k].wf() by {
                        if k != j {
                            assert(self.servers@[k] == old(self).servers@[k]);
                        }
                    }
                }
            },
            None => {},
        }
        let ghost pv0 = self.path_views();
        match &handle.local_ipc_path {
            Some(x) => {
                if pi.is_none() {
                    self.ipc_paths.push(x.clone());
                    proof {
                        assert(self.path_views() =~= pv0.push(x@));
                        lemma_no_dup_push(pv0, x@);
                    }
                } else {
                    proof {
                        let i = pi->0;
                        assert(pv0.to_set().contains(x@));
                        assert(pv0.to_set().insert(x@) =~= pv0.to_set());
                    }
                }
            },
            None => {},
        }
        let ghost sv0 = self.stream_views();
        proof {
            assert(!has_key(sv0, stream_key_fn(), h.state.id)) by {
                if has_key(sv0, stream_key_fn(), h.state.id) {
                    assert(key_map(sv0, stream_key_fn(), same_fn()).contains_key(h.state.id));
                }
            }
            lemma_key_map_push(sv0, stream_key_fn(), same_fn(), h);
        }
        self.streams.push(handle);
        proof {
            assert(self.stream_views() =~= sv0.push(h));
            assert(self.label_views() =~= old(self).label_views());
            let w = v.with_stream(h);
            assert(self@.streams =~= w.streams);
            assert(self@.servers =~= w.servers);
            assert(self@.labels =~= w.labels);
            assert(self@.ipc_paths =~= w.ipc_paths);
        }
    }

    /// Register a freshly bound server.
    pub fn insert_server(&mut self, handle: ServerHandle<T>)
        requires
            old(self).wf(),
            old(self)@.admits_server(handle@),
            handle.children@.len() == 0,
            handle.bases@.len() == 0,
        ensures
            final(self).wf(),
            final(self)@ == old(self)@.with_server(handle@),
    {
        let ghost v = self@;
        let ghost h = handle@;
        let pi = match &handle.ipc_path {
            Some(x) => self.find_path(x.as_str()),
            None => None,
        };
        proof {
            reveal(Registry::wf);
            lemma_with_server_consistent(v, h);
        }
        let ghost pv0 = self.path_views();
        match &handle.ipc_path {
            Some(x) => {
                if pi.is_none() {
                    self.ipc_paths.push(x.clone());
                    proof {
                        assert(self.path_views() =~= pv0.push(x@));
                        lemma_no_dup_push(pv0, x@);
                    }
                } else {
                    proof {
                        assert(pv0.to_set().insert(x@) =~= pv0.to_set());
                    }
                }
            },
            None => {},
        }
        let ghost rv0 = self.server_views();
        proof {
            assert(!has_key(rv0, server_key_fn(), h.state.id)) by {
                if has_key(rv0, server_key_fn(), h.state.id) {
                    assert(key_map(rv0, server_key_fn(), same_fn()).contains_key(h.state.id));
                }
            }
            lemma_key_map_push(rv0, server_key_fn(), same_fn(), h);
            assert(id_views(handle.children@) =~= Seq::<IdView>::empty());
            assert(handle.wf());
        }
        self.servers.push(handle);
        proof {
            assert(self.server_views() =~= rv0.push(h));
            assert forall|k: int| 0 <= k < self.servers@.len() implies #[trigger] self.servers@[k].wf() by {
                if k < rv0.len() {
                    assert(self.servers@[k] == old(self).servers@[k]);
                }
            }
            let w = v.with_server(h);
            assert(self.stream_views() =~= old(self).stream_views());
            assert(self.label_views() =~= old(self).label_views());
            assert(self@.servers =~= w.servers);
            assert(self@.ipc_paths =~= w.ipc_paths);
        }
    }

    /// Position of a child in a server's children.
    fn find_child(&self, j: usize, id: &ConnectionId) -> (r: Option<usize>)
        requires
            j < self.servers@.len(),
        ensures
            match r {
                Some(c) => c < self.servers@[j as int].children@.len()
                    && self.servers@[j as int].children@[c as int]@ == id@,
                None => !id_views(self.servers@[j as int].children@).contains(id@),
            },
    {
        let mut c: usize = 0;
        while c < self.servers[j].children.len()
            invariant
                j < self.servers@.len(),
                0 <= c <= self.servers@[j as int].children@.len(),
                forall|k: int| 0 <= k < c ==> self.servers@[j as int].children@[k]@ != id@,
            decreases self.servers@[j as int].children@.len() - c,
        {
            if self.servers[j].children[c].same(id) {
                return Some(c);
            }
            c = c + 1;
        }
        proof {
            let cs = id_views(self.servers@[j as int].children@);
            if cs.contains(id@) {
                let k = choose|k: int| 0 <= k < cs.len() && cs[k] == id@;
                assert(self.servers@[j as int].children@[k]@ == id@);
            }
        }
        None
    }

    /// Remove a stream: it leaves its parent's children, its label is
    /// freed and its local socket path untracked. The closed handle is
    /// handed back so that the caller releases its transport resources and
    /// removes the socket file.
    pub fn drop_stream(&mut self, id: &ConnectionId) -> (r: Option<StreamHandle<S>>)
        requires
            old(self).wf(),
        ensures
            final(self).wf(),
            final(self).servers@.len() == old(self).servers@.len(),
            match r {
                Some(h) => {
                    &&& old(self)@.streams.contains_key(id@)
                    &&& h@ == closed_stream(old(self)@.streams[id@])
                    &&& final(self)@ == old(self)@.without_streams(set![id@])
                    &&& final(self).streams@.len() == old(self).streams@.len() - 1
                },
                None => {
                    &&& !old(self)@.streams.contains_key(id@)
                    &&& final(self)@ == old(self)@
                },
            },
    {
        let ghost v = self@;
        let i = match self.find_stream(id) {
            Some(i) => i,
            None => return None,
        };
        let ghost h = self.streams@[i as int]@;
        let pj = match &self.streams[i].parent {
            Some(p) => self.find_server(p),
            None => None,
        };
        let ci = match pj {
            Some(j) => self.find_child(j, id),
            None => None,
        };
        let li = match &self.streams[i].state.label {
            Some(n) => self.find_label(n.as_str()),
            None => None,
        };
        let xi = match &self.streams[i].local_ipc_path {
            Some(x) => self.find_path(x.as_str()),
            None => None,
        };
        let ghost k = set![id@];
        let ghost w = v.without_streams(k);
        proof {
            reveal(Registry::wf);
            lemma_without_streams_consistent(v, k);
            assert(v.streams[id@] == h);
            assert(h.state.id == id@);
            match h.parent {
                Some(p) => {
                    assert(v.servers[p].children.contains(id@));
                    assert(id_views(self.servers@[pj->0 as int].children@).to_set().contains(id@));
                    assert(ci is Some);
                },
                None => {},
            }
            assert(v.is_registered(id@));
            assert(v.label_of(id@) == h.state.label);
            match h.state.label {
                Some(n) => {
                    assert(v.labels.contains_key(n));
                },
                None => {},
            }
        }
        // Leave the parent's children.
        let ghost rv0 = self.server_views();
        match ci {
            Some(c) => {
                let j = pj.unwrap();
                let ghost old_children = self.servers@[j as int].children@;
                proof {
                    assert(old(self).servers@[j as int].wf());
                    assert(id_views(old_children).remove(c as int) =~= id_views(old_children.remove(c as int)));
                    lemma_no_dup_remove(id_views(old_children), c as int);
                }
                self.servers[j].children.remove(c);
                proof {
                    assert(self.servers@[j as int].children@ =~= old_children.remove(c as int));
                    let nv = ServerView { children: rv0[j as int].children.remove(id@), ..rv0[j as int] };
                    assert(self.servers@[j as int]@ == nv);
                    assert(self.server_views() =~= rv0.update(j as int, nv));
                    lemma_key_map_update(rv0, server_key_fn(), same_fn(), j as int, nv);
                    assert forall|q: int| 0 <= q < self.servers@.len() implies #[trigger] self.servers@[q].wf() by {
                        if q != j {
                            assert(self.servers@[q] == old(self).servers@[q]);
                        }
                    }
                }
            },
            None => {},
        }
        proof {
            assert forall|p: IdView| #[trigger] self@.servers.contains_key(p) implies self@.servers[p] == w.servers[p] by {
                assert(v.servers.contains_key(p));
                if h.parent == Some(p) {
                    assert(v.servers[p].children.remove(id@) =~= v.servers[p].children.difference(k));
                } else {
                    assert(!v.servers[p].children.contains(id@));
                    assert(v.servers[p].children =~= v.servers[p].children.difference(k));
                }
            }
            assert(self@.servers =~= w.servers);
        }
        // Free the label.
        let ghost lv0 = self.label_views();
        match li {
            Some(l) => {
                self.labels.remove(l);
                proof {
                    assert(self.label_views() =~= lv0.remove(l as int));
                    lemma_key_map_remove(lv0, label_key_fn(), label_id_fn(), l as int);
                }
            },
            None => {},
        }
        proof {
            assert(v.is_registered(id@));
            assert forall|n: Seq<char>| v.labels.contains_key(n) implies (v.labels[n] == id@ <==> h.state.label == Some(n)) by {
                if v.labels[n] == id@ {
                    assert(v.label_of(id@) == Some(n));
                }
            }
            assert(self@.labels =~= w.labels);
        }
        // Untrack the local socket path.
        let ghost pv0 = self.path_views();
        match xi {
            Some(x) => {
                proof {
                    lemma_no_dup_remove(pv0, x as int);
                }
                self.ipc_paths.remove(x);
                proof {
                    assert(self.path_views() =~= pv0.remove(x as int));
                }
            },
            None => {},
        }
        proof {
            assert forall|x: Seq<char>| self@.ipc_paths.contains(x) <==> w.ipc_paths.contains(x) by {
                if h.local_ipc_path == Some(x) {
                    assert(k.contains(id@) && v.streams.contains_key(id@) && v.streams[id@].local_ipc_path == Some(x));
                } else {
                    if exists|c: IdView| k.contains(c) && #[trigger] v.streams.contains_key(c) && v.streams[c].local_ipc_path == Some(x) {
                        let c = choose|c: IdView| k.contains(c) && #[trigger] v.streams.contains_key(c) && v.streams[c].local_ipc_path == Some(x);
                        assert(c == id@);
                    }
                }
            }
            assert(self@.ipc_paths =~= w.ipc_paths);
        }
        // Leave the stream table.
        let ghost sv0 = self.stream_views();
        proof {
            lemma_key_map_remove(sv0, stream_key_fn(), same_fn(), i as int);
        }
        let mut handle = self.streams.remove(i);
        handle.state.on_closed();
        proof {
            assert(self.stream_views() =~= sv0.remove(i as int));
            assert(self@.streams =~= w.streams);
            assert(handle@ == closed_stream(h));
        }
        Some(handle)
    }

    /// The ids of a server's children, in order.
    pub(crate) fn children_of(&self, j: usize) -> (r: Vec<ConnectionId>)
        requires
            j < self.servers@.len(),
        ensures
            id_views(r@) == id_views(self.servers@[j as int].children@),
    {
        let mut r: Vec<ConnectionId> = Vec::new();
        let mut c: usize = 0;
        while c < self.servers[j].children.len()
            invariant
                j < self.servers@.len(),
                0 <= c <= self.servers@[j as int].children@.len(),
                id_views(r@) == id_views(self.servers@[j as int].children@).take(c as int),
            decreases self.servers@[j as int].children@.len() - c,
        {
            let ghost r0 = r@;
            let d = self.servers[j].children[c].duplicate();
            r.push(d);
            proof {
                assert(r@ == r0.push(d));
                assert(id_views(r@) =~= id_views(r0).push(d@));
                assert(id_views(self.servers@[j as int].children@).take(c as int + 1) =~= id_views(self.servers@[j as int].children@).take(c as int).push(d@));
            }
            c = c + 1;
        }
        assert(id_views(self.servers@[j as int].children@).take(c as int) =~= id_views(self.servers@[j as int].children@));
        r
    }

    /// Remove a server, cascading to every accepted child.
    ///
    /// Closing a server closes every accepted connection attached to it and
    /// untracks its socket path; the server handle (its children now
    /// closed) and the closed children are handed back so that the caller
    /// stops the accept task, releases the streams and removes the socket
    /// files.
    pub fn drop_server(&mut self, id: &ConnectionId) -> (r: Option<(ServerHandle<T>, Vec<StreamHandle<S>>)>)
        requires
            old(self).wf(),
        ensures
            final(self).wf(),
            match r {
                Some((srv, kids)) => {
                    &&& old(self)@.servers.contains_key(id@)
                    &&& srv@ == (ServerView { children: Set::<IdView>::empty(), ..old(self)@.servers[id@] })
                    &&& handle_ids(kids@).no_duplicates()
                    &&& handle_ids(kids@).to_set() == old(self)@.servers[id@].children
                    &&& forall|i: int| 0 <= i < kids@.len() ==> #[trigger] kids@[i]@ == closed_stream(old(self)@.streams[kids@[i].state.id@])
                    &&& final(self)@ == old(self)@.without_server(id@)
                    &&& final(self).servers@.len() == old(self).servers@.len() - 1
                },
                None => {
                    &&& !old(self)@.servers.contains_key(id@)
                    &&& final(self)@ == old(self)@
                },
            },
    {
        let ghost v = self@;
        let j = match self.find_server(id) {
            Some(j) => j,
            None => return None,
        };
        let kids_ids = self.children_of(j);
        let ghost ids = id_views(kids_ids@);
        proof {
            reveal(Registry::wf);
            assert(self.servers@[j as int].wf());
            assert(ids.no_duplicates());
            assert(ids.to_set() == v.servers[id@].children);
            assert forall|c: IdView| #[trigger] ids.to_set().contains(c) implies v.streams.contains_key(c) by {
                assert(v.servers[id@].children.contains(c));
            }
            assert(ids.take(0).to_set() =~= Set::<IdView>::empty());
            assert(v.without_streams(Set::<IdView>::empty()).streams =~= v.streams);
            assert(v.without_streams(Set::<IdView>::empty()).labels =~= v.labels);
            assert(v.without_streams(Set::<IdView>::empty()).ipc_paths =~= v.ipc_paths);
            assert forall|p: IdView| #[trigger] v.servers.contains_key(p) implies v.servers[p].children.difference(Set::<IdView>::empty()) == v.servers[p].children by {
                assert(v.servers[p].children.difference(Set::<IdView>::empty()) =~= v.servers[p].children);
            }
            assert(v.without_streams(Set::<IdView>::empty()).servers =~= v.servers);
        }
        let mut kids: Vec<StreamHandle<S>> = Vec::new();
        let mut k: usize = 0;
        while k < kids_ids.len()
            invariant
                self.wf(),
                self.servers@.len() == old(self).servers@.len(),
                v.consistent(),
                v.servers.contains_key(id@),
                ids == id_views(kids_ids@),
                ids.no_duplicates(),
                ids.to_set() == v.servers[id@].children,
                forall|c: IdView| #[trigger] ids.to_set().contains(c) ==> v.streams.contains_key(c),
                0 <= k <= ids.len(),
                self@ == v.without_streams(ids.take(k as int).to_set()),
                handle_ids(kids@) == ids.take(k as int),
                forall|i: int| 0 <= i < kids@.len() ==> #[trigger] kids@[i]@ == closed_stream(v.streams[kids@[i].state.id@]),
            decreases ids.len() - k,
        {
            let ghost kset = ids.take(k as int).to_set();
            let ghost c = ids[k as int];
            proof {
                assert(ids.to_set().contains(c));
                assert(!kset.contains(c)) by {
                    if kset.contains(c) {
                        let q = choose|q: int| 0 <= q < ids.take(k as int).len() && ids.take(k as int)[q] == c;
                        assert(ids[q] == ids[k as int]);
                    }
                }
                assert(kids_ids@[k as int]@ == c);
            }
            let dropped = self.drop_stream(&kids_ids[k]);
            match dropped {
                Some(h) => {
                    kids.push(h);
                },
                None => {
                    proof {
                        assert(v.without_streams(kset).streams.contains_key(c));
                    }
                },
            }
            proof {
                lemma_without_streams_step(v, kset, c);
                assert(ids.take(k as int + 1) =~= ids.take(k as int).push(c));
                ids.take(k as int).lemma_push_to_set_commute(c);
                assert(ids.take(k as int + 1).to_set() =~= kset.insert(c));
                assert(handle_ids(kids@) =~= ids.take(k as int + 1));
                assert forall|i: int| 0 <= i < kids@.len() implies #[trigger] kids@[i]@ == closed_stream(v.streams[kids@[i].state.id@]) by {
                    if i == k {
                        assert(v.without_streams(kset).streams[c] == v.streams[c]);
                    }
                }
            }
            k = k + 1;
        }
        proof {
            assert(ids.take(ids.len() as int) =~= ids);
        }
        let ghost w = self@;
        let j2 = match self.find_server(id) {
            Some(j2) => j2,
            None => {
                proof {
                    assert(w.servers.contains_key(id@));
                }
                return None;
            },
        };
        let li = match &self.servers[j2].state.label {
            Some(n) => self.find_label(n.as_str()),
            None => None,
        };
        let xi = match &self.servers[j2].ipc_path {
            Some(x) => self.find_path(x.as_str()),
            None => None,
        };
        proof {
            reveal(Registry::wf);
            lemma_without_server_consistent(v, id@);
            assert(w.is_registered(id@));
            assert(w.label_of(id@) == w.servers[id@].state.label);
        }
        let ghost lv0 = self.label_views();
        match li {
            Some(l) => {
                self.labels.remove(l);
                proof {
                    assert(self.label_views() =~= lv0.remove(l as int));
                    lemma_key_map_remove(lv0, label_key_fn(), label_id_fn(), l as int);
                }
            },
            None => {},
        }
        let ghost pv0 = self.path_views();
        match xi {
            Some(x) => {
                proof {
                    lemma_no_dup_remove(pv0, x as int);
                }
                self.ipc_paths.remove(x);
                proof {
                    assert(self.path_views() =~= pv0.remove(x as int));
                }
            },
            None => {},
        }
        let ghost rv0 = self.server_views();
        let ghost sv = self.servers@;
        proof {
            lemma_key_map_remove(rv0, server_key_fn(), same_fn(), j2 as int);
            assert(forall|q: int| 0 <= q < sv.len() ==> #[trigger] sv[q].wf());
        }
        let srv = self.servers.remove(j2);
        proof {
            assert(self.server_views() =~= rv0.remove(j2 as int));
            assert forall|q: int| 0 <= q < self.servers@.len() implies #[trigger] self.servers@[q].wf() by {
                if q < j2 {
                    assert(self.servers@[q] == sv[q]);
                } else {
                    assert(self.servers@[q] == sv[q + 1]);
                }
            }
            let z = v.without_server(id@);
            assert(w.servers[id@].children =~= Set::<IdView>::empty());
            assert(self@.streams =~= z.streams);
            assert(self@.servers =~= z.servers);
            assert(self@.labels =~= z.labels);
            assert(self@.ipc_paths =~= z.ipc_paths);
        }
        Some((srv, kids))
    }

    /// Position of a collision slot of server `j`.
    fn find_base(&self, j: usize, key: i64) -> (r: Option<usize>)
        requires
            j < self.servers@.len(),
            self.servers@[j as int].wf(),
        ensures
            match r {
                Some(b) => b < self.servers@[j as int].bases@.len() && self.servers@[j as int].bases@[b as int].key == key
                    && self.servers@[j as int]@.bases.contains_key(key as int)
                    && self.servers@[j as int]@.bases[key as int] == self.servers@[j as int].bases@[b as int].next,
                None => !self.servers@[j as int]@.bases.contains_key(key as int),
            },
    {
        let mut b: usize = 0;
        while b < self.servers[j].bases.len()
            invariant
                j < self.servers@.len(),
                self.servers@[j as int].wf(),
                0 <= b <= self.servers@[j as int].bases@.len(),
                forall|k: int| 0 <= k < b ==> self.servers@[j as int].bases@[k].key != key,
            decreases self.servers@[j as int].bases@.len() - b,
        {
            if self.servers[j].bases[b].key == key {
                proof {
                    lemma_key_map_index(self.servers@[j as int].bases@, base_key_fn(), base_next_fn(), b as int);
                }
                return Some(b);
            }
            b = b + 1;
        }
        proof {
            let bs = self.servers@[j as int].bases@;
            if key_map(bs, base_key_fn(), base_next_fn()).contains_key(key as int) {
                let k = key_index(bs, base_key_fn(), key as int);
                assert(bs[k].key as int == key as int);
            }
        }
        None
    }

    /// Rename a stream: same handle under a new key; its parent's
    /// children and its label follow.
    fn rename_stream(&mut self, from: &ConnectionId, to: &ConnectionId)
        requires
            old(self).wf(),
            !old(self)@.is_registered(to@),
        ensures
            final(self).wf_tables(),
            final(self)@ == old(self)@.renamed(from@, to@),
            final(self).servers@.len() == old(self).servers@.len(),
            forall|q: int| 0 <= q < final(self).servers@.len() ==> {
                &&& (#[trigger] final(self).servers@[q]).state == old(self).servers@[q].state
                &&& final(self).servers@[q].bases == old(self).servers@[q].bases
            },
    {
        let ghost v = self@;
        let i = match self.find_stream(from) {
            Some(i) => i,
            None => {
                proof {
                    reveal(Registry::wf);
                }
                return ;
            },
        };
        let ghost h = self.streams@[i as int]@;
        let pj = match &self.streams[i].parent {
            Some(p) => self.find_server(p),
            None => None,
        };
        let ci = match pj {
            Some(j) => self.find_child(j, from),
            None => None,
        };
        let li = match &self.streams[i].state.label {
            Some(n) => self.find_label(n.as_str()),
            None => None,
        };
        let ghost w = v.renamed(from@, to@);
        proof {
            reveal(Registry::wf);
            assert(v.streams[from@] == h);
            assert(h.state.id == from@);
            match h.parent {
                Some(p) => {
                    assert(v.servers[p].children.contains(from@));
                    assert(id_views(self.servers@[pj->0 as int].children@).to_set().contains(from@));
                    assert(ci is Some);
                    assert(!v.servers[p].children.contains(to@)) by {
                        if v.servers[p].children.contains(to@) {
                            assert(v.streams.contains_key(to@));
                        }
                    }
                },
                None => {},
            }
            assert(v.is_registered(from@));
            assert(v.label_of(from@) == h.state.label);
        }
        // Rekey the stream.
        let ghost sv0 = self.stream_views();
        let ghost nh = StreamView { state: StateView { id: to@, ..h.state }, ..h };
        proof {
            assert(!has_key(sv0, stream_key_fn(), to@)) by {
                if has_key(sv0, stream_key_fn(), to@) {
                    assert(key_map(sv0, stream_key_fn(), same_fn()).contains_key(to@));
                }
            }
            lemma_key_map_update(sv0, stream_key_fn(), same_fn(), i as int, nh);
        }
        self.streams[i].state.id = to.duplicate();
        proof {
            assert(self.stream_views() =~= sv0.update(i as int, nh));
            assert(self@.streams =~= w.streams);
        }
        // Its parent's children follow.
        let ghost rv0 = self.server_views();
        match ci {
            Some(c) => {
                let j = pj.unwrap();
                let ghost old_children = self.servers@[j as int].children@;
                proof {
                    assert(old(self).servers@[j as int].wf());
                    assert(!id_views(old_children).contains(to@)) by {
                        if id_views(old_children).contains(to@) {
                            let q = choose|q: int| 0 <= q < id_views(old_children).len() && id_views(old_children)[q] == to@;
                            assert(id_views(old_children).to_set().contains(to@));
                        }
                    }
                    lemma_no_dup_update(id_views(old_children), c as int, to@);
                }
                self.servers[j].children[c] = to.duplicate();
                proof {
                    assert(id_views(self.servers@[j as int].children@) =~= id_views(old_children).update(c as int, to@));
                    let nv = ServerView { children: rv0[j as int].children.remove(from@).insert(to@), ..rv0[j as int] };
                    assert(self.servers@[j as int]@ == nv);
                    assert(self.server_views() =~= rv0.update(j as int, nv));
                    lemma_key_map_update(rv0, server_key_fn(), same_fn(), j as int, nv);
                    assert(self@.servers =~= w.servers);
                    assert forall|q: int| 0 <= q < self.servers@.len() implies #[trigger] self.servers@[q].wf() by {
                        if q != j {
                            assert(self.servers@[q] == old(self).servers@[q]);
                        }
                    }
                }
            },
            None => {
                proof {
                    assert(self.server_views() =~= rv0);
                    assert(self@.servers =~= w.servers);
                }
            },
        }
        // Its label follows.
        let ghost lv0 = self.label_views();
        match li {
            Some(l) => {
                proof {
                    lemma_key_map_update(lv0, label_key_fn(), label_id_fn(), l as int, (lv0[l as int].0, to@));
                }
                self.labels[l].id = to.duplicate();
                proof {
                    assert(self.label_views() =~= lv0.update(l as int, (lv0[l as int].0, to@)));
                    assert(self@.labels =~= w.labels);
                }
            },
            None => {
                proof {
                    assert(self@.labels =~= w.labels);
                }
            },
        }
        proof {
            assert(self.path_views() =~= old(self).path_views());
            assert(self@ == w);
        }
    }

    /// The id with another disambiguation suffix.
    fn with_suffix(base: &ConnectionId, d: Option<u32>) -> (r: ConnectionId)
        ensures
            r@ == with_disambig(base@, d),
    {
        match base {
            ConnectionId::AcceptedTcp { parent_port, remote_port, .. } => ConnectionId::AcceptedTcp {
                parent_port: *parent_port,
                remote_port: *remote_port,
                disambig: d,
            },
            ConnectionId::AcceptedIpc { parent_path, pid, .. } => ConnectionId::AcceptedIpc {
                parent_path: parent_path.clone(),
                pid: *pid,
                disambig: d,
            },
            _ => base.duplicate(),
        }
    }

    /// The server and collision key an accepted id derives from.
    fn origin_of(base: &ConnectionId) -> (r: (ConnectionId, i64))
        requires
            accepted_origin(base@) is Some,
        ensures
            r.0@ == origin_server(base@),
            r.1 as int == origin_key(base@),
    {
        match base {
            ConnectionId::AcceptedTcp { parent_port, remote_port, .. } => (
                ConnectionId::TcpServer { port: *parent_port },
                *remote_port as i64,
            ),
            ConnectionId::AcceptedIpc { parent_path, pid, .. } => (
                ConnectionId::IpcServer { path: parent_path.clone() },
                *pid as i64,
            ),
            _ => (base.duplicate(), 0),
        }
    }

    /// Whether an id can be allocated from the unsuffixed accepted id `base`.
    pub fn can_allocate(&self, base: &ConnectionId) -> (r: bool)
        requires
            self.wf(),
        ensures
            r == self@.can_allocate(base@),
    {
        match base {
            ConnectionId::AcceptedTcp { disambig: Some(_), .. } => return false,
            ConnectionId::AcceptedIpc { disambig: Some(_), .. } => return false,
            ConnectionId::AcceptedTcp { .. } => {},
            ConnectionId::AcceptedIpc { .. } => {},
            _ => return false,
        }
        let (parent, key) = Self::origin_of(base);
        let j = match self.find_server(&parent) {
            Some(j) => j,
            None => return false,
        };
        proof {
            reveal(Registry::wf);
        }
        match self.find_base(j, key) {
            Some(b) => match self.servers[j].bases[b].next {
                Some(n) => n != 4294967295,
                None => true,
            },
            None => true,
        }
    }

    fn allocate_from(&mut self, base: ConnectionId) -> (r: (ConnectionId, Option<NetEvent>))
        requires
            old(self).wf(),
            old(self)@.can_allocate(base@),
        ensures
            final(self).wf(),
            final(self)@ == old(self)@.allocation(base@).0,
            r.0@ == old(self)@.allocation(base@).1,
            match r.1 {
                Some(e) => e@ matches NetEventView::Renamed { new_id, old_id } && old(self)@.allocation(
                    base@,
                ).2 == Some((new_id, old_id)),
                None => old(self)@.allocation(base@).2 is None,
            },
    {
        let ghost v = self@;
        let (parent, key) = Self::origin_of(&base);
        proof {
            reveal(Registry::wf);
            lemma_allocation(v, base@);
            lemma_origin_with_disambig(base@, None);
        }
        let j = match self.find_server(&parent) {
            Some(j) => j,
            None => {
                proof {
                    assert(false);
                }
                return (base, None);
            },
        };
        proof {
            reveal(Registry::wf);
            assert(self.servers@[j as int].wf());
        }
        match self.find_base(j, key) {
            None => {
                let ghost rv0 = self.server_views();
                let ghost bs0 = self.servers@[j as int].bases@;
                proof {
                    assert(!has_key(bs0, base_key_fn(), key as int)) by {
                        if has_key(bs0, base_key_fn(), key as int) {
                            assert(key_map(bs0, base_key_fn(), base_next_fn()).contains_key(key as int));
                        }
                    }
                    lemma_key_map_push(bs0, base_key_fn(), base_next_fn(), BaseSlot { key: key, next: None });
                }
                self.servers[j].bases.push(BaseSlot { key: key, next: None });
                proof {
                    assert(self.servers@[j as int].bases@ =~= bs0.push(BaseSlot { key: key, next: None }));
                    let nv = server_with_slot(rv0[j as int], key as int, None);
                    assert(self.servers@[j as int]@ == nv);
                    assert(self.server_views() =~= rv0.update(j as int, nv));
                    lemma_key_map_update(rv0, server_key_fn(), same_fn(), j as int, nv);
                    assert forall|q: int| 0 <= q < self.servers@.len() implies #[trigger] self.servers@[q].wf() by {
                        if q != j {
                            assert(self.servers@[q] == old(self).servers@[q]);
                        }
                    }
                    assert(self.stream_views() =~= old(self).stream_views());
                    assert(self.label_views() =~= old(self).label_views());
                    assert(self.path_views() =~= old(self).path_views());
                    assert(self@.servers =~= v.allocation(base@).0.servers);
                    assert(self@ == v.allocation(base@).0);
                }
                (base, None)
            },
            Some(b) => {
                match self.servers[j].bases[b].next {
                    None => {
                        let first = Self::with_suffix(&base, Some(1));
                        let second = Self::with_suffix(&base, Some(2));
                        proof {
                            lemma_origin_with_disambig(base@, Some(1));
                            let bases = v.servers[origin_server(base@)].bases;
                            assert(!v.is_registered(first@)) by {
                                if v.streams.contains_key(first@) {
                                    assert(v.accepted_ok(first@, v.streams[first@].parent));
                                }
                            }
                        }
                        self.rename_stream(&base, &first);
                        let ghost u = self@;
                        let ghost svr = self.servers@;
                        let ghost rv0 = self.server_views();
                        let ghost bs0 = self.servers@[j as int].bases@;
                        proof {
                            assert(self.servers@[j as int].state.id@ == parent@);
                            assert(u.servers.contains_key(parent@));
                            lemma_key_map_index(rv0, server_key_fn(), same_fn(), j as int);
                            assert(svr[j as int].wf());
                            assert(bs0 == old(self).servers@[j as int].bases@);
                            lemma_key_map_update(bs0, base_key_fn(), base_next_fn(), b as int, BaseSlot { key: key, next: Some(3) });
                        }
                        self.servers[j].bases[b].next = Some(3);
                        proof {
                            assert(self.servers@[j as int].bases@ =~= bs0.update(b as int, BaseSlot { key: key, next: Some(3) }));
                            let nv = server_with_slot(rv0[j as int], key as int, Some(3));
                            assert(rv0[j as int].bases.insert(key as int, Some(3)) =~= rv0[j as int].bases.remove(key as int).insert(key as int, Some(3)));
                            assert(self.servers@[j as int]@ == nv);
                            assert(self.server_views() =~= rv0.update(j as int, nv));
                            lemma_key_map_update(rv0, server_key_fn(), same_fn(), j as int, nv);
                            assert(svr[j as int].wf());
                            assert forall|q: int| 0 <= q < self.servers@.len() implies #[trigger] self.servers@[q].wf() by {
                                if q != j {
                                    assert(self.servers@[q] == svr[q]);
                                    assert(svr[q].wf());
                                }
                            }
                            assert(self@.servers =~= v.allocation(base@).0.servers);
                            assert(self@ == v.allocation(base@).0);
                        }
                        let ev = NetEvent::Renamed { new_id: first, old_id: base };
                        (second, Some(ev))
                    },
                    Some(n) => {
                        let ghost rv0 = self.server_views();
                        let ghost bs0 = self.servers@[j as int].bases@;
                        proof {
                            lemma_key_map_update(bs0, base_key_fn(), base_next_fn(), b as int, BaseSlot { key: key, next: Some((n + 1) as u32) });
                        }
                        self.servers[j].bases[b].next = Some(n + 1);
                        proof {
                            assert(self.servers@[j as int].bases@ =~= bs0.update(b as int, BaseSlot { key: key, next: Some((n + 1) as u32) }));
                            let nv = server_with_slot(rv0[j as int], key as int, Some((n + 1) as u32));
                            assert(rv0[j as int].bases.insert(key as int, Some((n + 1) as u32)) =~= rv0[j as int].bases.remove(key as int).insert(key as int, Some((n + 1) as u32)));
                            assert(self.servers@[j as int]@ == nv);
                            assert(self.server_views() =~= rv0.update(j as int, nv));
                            lemma_key_map_update(rv0, server_key_fn(), same_fn(), j as int, nv);
                            assert forall|q: int| 0 <= q < self.servers@.len() implies #[trigger] self.servers@[q].wf() by {
                                if q != j {
                                    assert(self.servers@[q] == old(self).servers@[q]);
                                }
                            }
                            assert(self.stream_views() =~= old(self).stream_views());
                            assert(self.label_views() =~= old(self).label_views());
                            assert(self.path_views() =~= old(self).path_views());
                            assert(self@.servers =~= v.allocation(base@).0.servers);
                            assert(self@ == v.allocation(base@).0);
                        }
                        (Self::with_suffix(&base, Some(n)), None)
                    },
                }
            },
        }
    }

    /// Compute the final id for a newly accepted TCP connection, handling
    /// remote-port collisions (first-collision retro-rename included).
    ///
    /// Returns `(new_id, optional_rename_event)`.
    pub fn allocate_accepted_tcp_id(&mut self, parent_port: u16, remote_port: u16) -> (r: (
        ConnectionId,
        Option<NetEvent>,
    ))
        requires
            old(self).wf(),
            old(self)@.can_allocate(
                IdView::AcceptedTcp { parent_port, remote_port, disambig: None },
            ),
        ensures
            final(self).wf(),
            allocated(
                old(self)@,
                final(self)@,
                IdView::AcceptedTcp { parent_port, remote_port, disambig: None },
                r.0@,
                opt_event_view(r.1),
            ),
    {
        let base = ConnectionId::AcceptedTcp { parent_port, remote_port, disambig: None };
        proof {
            reveal(Registry::wf);
            lemma_allocation(self@, base@);
        }
        self.allocate_from(base)
    }

    /// Same logic for IPC accepted ids, keyed by pid.
    pub fn allocate_accepted_ipc_id(&mut self, parent_path: String, pid: i32) -> (r: (
        ConnectionId,
        Option<NetEvent>,
    ))
        requires
            old(self).wf(),
            old(self)@.can_allocate(
                IdView::AcceptedIpc { parent_path: parent_path@, pid, disambig: None },
            ),
        ensures
            final(self).wf(),
            allocated(
                old(self)@,
                final(self)@,
                IdView::AcceptedIpc { parent_path: parent_path@, pid, disambig: None },
                r.0@,
                opt_event_view(r.1),
            ),
    {
        let base = ConnectionId::AcceptedIpc { parent_path, pid, disambig: None };
        proof {
            reveal(Registry::wf);
            lemma_allocation(self@, base@);
        }
        self.allocate_from(base)
    }

    /// A registered id of rank `rank` written `token`, if any.
    #[verifier::loop_isolation(false)]
    fn find_text_of_rank(&self, token: &str, rank: u8) -> (r: Option<ConnectionId>)
        requires
            self.wf(),
        ensures
            match r {
                Some(id) => self@.text_match(token@, id@) && kind_rank(id@) == rank,
                None => forall|o: IdView| #[trigger] self@.text_match(token@, o) ==> kind_rank(o) != rank,
            },
    {
        proof {
            reveal(Registry::wf);
        }
        let mut i: usize = 0;
        while i < self.streams.len()
            invariant
                0 <= i <= self.streams@.len(),
                forall|j: int| 0 <= j < i ==> self.streams@[j].state.id@.text() != token@
                    || kind_rank(self.streams@[j].state.id@) != rank,
            decreases self.streams@.len() - i,
        {
            if rank_of(&self.streams[i].state.id) == rank {
                let text = self.streams[i].state.id.to_string();
                if str_eq(text.as_str(), token) {
                    let id = self.streams[i].state.id.duplicate();
                    proof {
                        assert(self.stream_views()[i as int] == self.streams@[i as int]@);
                        lemma_key_map_index(self.stream_views(), stream_key_fn(), same_fn(), i as int);
                        assert(self@.text_match(token@, id@));
                    }
                    return Some(id);
                }
            }
            i = i + 1;
        }
        let mut k: usize = 0;
        while k < self.servers.len()
            invariant
                0 <= k <= self.servers@.len(),
                forall|j: int| 0 <= j < k ==> self.servers@[j].state.id@.text() != token@
                    || kind_rank(self.servers@[j].state.id@) != rank,
            decreases self.servers@.len() - k,
        {
            if rank_of(&self.servers[k].state.id) == rank {
                let text = self.servers[k].state.id.to_string();
                if str_eq(text.as_str(), token) {
                    let id = self.servers[k].state.id.duplicate();
                    proof {
                        assert(self.server_views()[k as int] == self.servers@[k as int]@);
                        lemma_key_map_index(self.server_views(), server_key_fn(), same_fn(), k as int);
                        assert(self@.text_match(token@, id@));
                    }
                    return Some(id);
                }
            }
            k = k + 1;
        }
        proof {
            assert forall|o: IdView| #[trigger] self@.text_match(token@, o) implies kind_rank(o) != rank by {
                if self@.streams.contains_key(o) {
                    let j = key_index(self.stream_views(), stream_key_fn(), o);
                    assert(self.stream_views()[j] == self.streams@[j]@);
                }
                if self@.servers.contains_key(o) {
                    let j = key_index(self.server_views(), server_key_fn(), o);
                    assert(self.server_views()[j] == self.servers@[j]@);
                }
            }
        }
        None
    }

    /// Resolve a user-typed token to a registered id, preferring labels.
    /// `parser` reads a token as an id; it must read tokens as
    /// `default_token_parser` does.
    #[verifier::loop_isolation(false)]
    pub fn resolve_id<F: Fn(&str) -> Option<ConnectionId>>(&self, token: &str, parser: F) -> (r: Result<
        ConnectionId,
        DomainError,
    >)
        requires
            self.wf(),
            forall|t: &str| #[trigger] parser.requires((t,)),
            forall|t: &str, p: Option<ConnectionId>|
                #[trigger] parser.ensures((t,), p) ==> opt_id_view(p) == token_id(t@),
        ensures
            match r {
                Ok(id) => self@.resolves(token@, id@),
                Err(e) => {
                    &&& !self@.resolvable(token@)
                    &&& e@ == DomainErrorView::UnknownId(token@)
                },
            },
    {
        match self.find_label(token) {
            Some(li) => return Ok(self.labels[li].id.duplicate()),
            None => {},
        }
        let parsed = parser(token);
        proof {
            assert(opt_id_view(parsed) == token_id(token@));
        }
        match parsed {
            Some(id) => {
                if self.has_stream(&id) || self.has_server(&id) {
                    return Ok(id);
                }
            },
            None => {},
        }
        let mut rank: u8 = 0;
        while rank < 6
            invariant
                self.wf(),
                0 <= rank <= 6,
                !self@.labels.contains_key(token@),
                !(token_id(token@) is Some && self@.is_registered(token_id(token@)->0)),
                forall|o: IdView| #[trigger] self@.text_match(token@, o) ==> kind_rank(o) >= rank,
            decreases 6 - rank,
        {
            match self.find_text_of_rank(token, rank) {
                Some(id) => return Ok(id),
                None => {},
            }
            rank = rank + 1;
        }
        Err(DomainError::UnknownId(string_of(token)))
    }

    /// Shutdown: drop every server (with its children) and every free
    /// client, and hand back every handle and every socket path still
    /// tracked, so that the caller releases them all. The registry is empty
    /// afterwards.
    pub fn shutdown(&mut self) -> (r: (Vec<ServerHandle<T>>, Vec<StreamHandle<S>>, Vec<String>))
        requires
            old(self).wf(),
        ensures
            final(self).wf(),
            final(self)@.streams == Map::<IdView, StreamView<S>>::empty(),
            final(self)@.servers == Map::<IdView, ServerView<T>>::empty(),
            final(self)@.labels == Map::<Seq<char>, IdView>::empty(),
            final(self)@.ipc_paths == Set::<Seq<char>>::empty(),
            server_handle_ids(r.0@).no_duplicates(),
            server_handle_ids(r.0@).to_set() == old(self)@.servers.dom(),
            forall|i: int| 0 <= i < r.0@.len() ==> #[trigger] r.0@[i]@ == (ServerView {
                children: Set::<IdView>::empty(),
                ..old(self)@.servers[r.0@[i].state.id@]
            }),
            handle_ids(r.1@).no_duplicates(),
            handle_ids(r.1@).to_set() == old(self)@.streams.dom(),
            forall|i: int| 0 <= i < r.1@.len() ==> #[trigger] r.1@[i]@ == closed_stream(
                old(self)@.streams[r.1@[i].state.id@],
            ),
            forall|x: Seq<char>| #[trigger] old(self)@.ipc_paths.contains(x) ==> r.2@.map_values(|p: String| p@).contains(x)
                || handle_paths(r.0@, r.1@).contains(x),
    {
        let ghost v = self@;
        let mut servers_out: Vec<ServerHandle<T>> = Vec::new();
        let mut streams_out: Vec<StreamHandle<S>> = Vec::new();
        proof {
            reveal(Registry::wf);
            assert(server_handle_ids(servers_out@).to_set() =~= Set::<IdView>::empty());
            assert(handle_ids(streams_out@).to_set() =~= Set::<IdView>::empty());
            assert(v.servers.dom() =~= self@.servers.dom() + server_handle_ids(servers_out@).to_set());
            assert(v.streams.dom() =~= self@.streams.dom() + handle_ids(streams_out@).to_set());
        }
        while self.servers.len() > 0
            invariant
                self.wf(),
                v.servers.dom() == self@.servers.dom() + server_handle_ids(servers_out@).to_set(),
                self@.servers.dom().disjoint(server_handle_ids(servers_out@).to_set()),
                server_handle_ids(servers_out@).no_duplicates(),
                v.streams.dom() == self@.streams.dom() + handle_ids(streams_out@).to_set(),
                self@.streams.dom().disjoint(handle_ids(streams_out@).to_set()),
                handle_ids(streams_out@).no_duplicates(),
                forall|x: IdView| #[trigger] self@.streams.contains_key(x) ==> self@.streams[x] == v.streams[x],
                forall|x: IdView| #[trigger] self@.servers.contains_key(x) ==> self@.servers[x] == (ServerView {
                    children: self@.servers[x].children,
                    ..v.servers[x]
                }),
                forall|i: int| 0 <= i < servers_out@.len() ==> #[trigger] servers_out@[i]@ == (ServerView {
                    children: Set::<IdView>::empty(),
                    ..v.servers[servers_out@[i].state.id@]
                }),
                forall|i: int| 0 <= i < streams_out@.len() ==> #[trigger] streams_out@[i]@ == closed_stream(
                    v.streams[streams_out@[i].state.id@],
                ),
                forall|x: Seq<char>| #[trigger] v.ipc_paths.contains(x) ==> self@.ipc_paths.contains(x)
                    || handle_paths(servers_out@, streams_out@).contains(x),
            decreases self.servers@.len(),
        {
            let ghost u = self@;
            let id = self.servers[0].state.id.duplicate();
            proof {
                reveal(Registry::wf);
                assert(self.server_views()[0] == self.servers@[0]@);
                lemma_key_map_index(self.server_views(), server_key_fn(), same_fn(), 0);
            }
            match self.drop_server(&id) {
                Some((srv, kids)) => {
                    let ghost so0 = servers_out@;
                    let ghost st0 = streams_out@;
                    let ghost kv = kids@;
                    servers_out.push(srv);
                    let mut kids = kids;
                    streams_out.append(&mut kids);
                    proof {
                        assert(streams_out@ == st0 + kv);
                        assert(server_handle_ids(servers_out@) =~= server_handle_ids(so0).push(id@));
                        assert(handle_ids(streams_out@) =~= handle_ids(st0) + handle_ids(kv));
                        let w = u.without_server(id@);
                        let kset = u.servers[id@].children;
                        // servers
                        assert(!server_handle_ids(so0).contains(id@)) by {
                            if server_handle_ids(so0).contains(id@) {
                                let q = choose|q: int| 0 <= q < server_handle_ids(so0).len() && server_handle_ids(so0)[q] == id@;
                                assert(server_handle_ids(so0).to_set().contains(id@));
                            }
                        }
                        lemma_no_dup_push(server_handle_ids(so0), id@);
                        assert(v.servers.dom() =~= self@.servers.dom() + server_handle_ids(servers_out@).to_set());
                        assert(self@.servers.dom().disjoint(server_handle_ids(servers_out@).to_set()));
                        // streams
                        assert(handle_ids(kv).to_set() == kset);
                        assert forall|c: IdView| kset.contains(c) implies u.streams.contains_key(c) by {
                            assert(u.servers[id@].children.contains(c));
                        }
                        assert(handle_ids(st0).to_set().disjoint(handle_ids(kv).to_set())) by {
                            assert forall|c: IdView| handle_ids(kv).to_set().contains(c) implies !handle_ids(st0).to_set().contains(c) by {
                                assert(u.streams.contains_key(c));
                            }
                        }
                        assert(handle_ids(streams_out@).no_duplicates()) by {
                            let a = handle_ids(st0);
                            let b = handle_ids(kv);
                            assert forall|i: int, j: int| 0 <= i < (a + b).len() && 0 <= j < (a + b).len() && i != j implies (a + b)[i] != (a + b)[j] by {
                                if i < a.len() && j >= a.len() {
                                    assert(a.to_set().contains(a[i]));
                                    assert(b.to_set().contains(b[j - a.len()]));
                                } else if i >= a.len() && j < a.len() {
                                    assert(a.to_set().contains(a[j]));
                                    assert(b.to_set().contains(b[i - a.len()]));
                                }
                            }
                        }
                        assert((handle_ids(st0) + handle_ids(kv)).to_set() =~= handle_ids(st0).to_set() + handle_ids(kv).to_set()) by {
                            assert forall|c: IdView| (handle_ids(st0) + handle_ids(kv)).to_set().contains(c) implies (handle_ids(st0).to_set() + handle_ids(kv).to_set()).contains(c) by {
                                let q = choose|q: int| 0 <= q < (handle_ids(st0) + handle_ids(kv)).len() && (handle_ids(st0) + handle_ids(kv))[q] == c;
                                if q < handle_ids(st0).len() {
                                    assert(handle_ids(st0)[q] == c);
                                } else {
                                    assert(handle_ids(kv)[q - handle_ids(st0).len()] == c);
                                }
                            }
                            assert forall|c: IdView| (handle_ids(st0).to_set() + handle_ids(kv).to_set()).contains(c) implies (handle_ids(st0) + handle_ids(kv)).to_set().contains(c) by {
                                if handle_ids(st0).to_set().contains(c) {
                                    let q = choose|q: int| 0 <= q < handle_ids(st0).len() && handle_ids(st0)[q] == c;
                                    assert((handle_ids(st0) + handle_ids(kv))[q] == c);
                                } else {
                                    let q = choose|q: int| 0 <= q < handle_ids(kv).len() && handle_ids(kv)[q] == c;
                                    assert((handle_ids(st0) + handle_ids(kv))[q + handle_ids(st0).len()] == c);
                                }
                            }
                        }
                        assert(v.streams.dom() =~= self@.streams.dom() + handle_ids(streams_out@).to_set());
                        assert(self@.streams.dom().disjoint(handle_ids(streams_out@).to_set()));
                        assert forall|i: int| 0 <= i < servers_out@.len() implies #[trigger] servers_out@[i]@ == (ServerView {
                            children: Set::<IdView>::empty(),
                            ..v.servers[servers_out@[i].state.id@]
                        }) by {
                            if i < so0.len() {
                                assert(servers_out@[i] == so0[i]);
                            }
                        }
                        assert forall|i: int| 0 <= i < streams_out@.len() implies #[trigger] streams_out@[i]@ == closed_stream(
                            v.streams[streams_out@[i].state.id@],
                        ) by {
                            if i < st0.len() {
                                assert(streams_out@[i] == st0[i]);
                            } else {
                                let q = i - st0.len();
                                assert(streams_out@[i] == kv[q]);
                                assert(kv[q]@ == closed_stream(u.streams[kv[q].state.id@]));
                                assert(handle_ids(kv)[q] == kv[q].state.id@);
                                assert(handle_ids(kv).to_set().contains(kv[q].state.id@));
                                assert(u.streams.contains_key(kv[q].state.id@));
                            }
                        }
                        assert forall|x: IdView| #[trigger] self@.servers.contains_key(x) implies self@.servers[x] == (ServerView {
                            children: self@.servers[x].children,
                            ..v.servers[x]
                        }) by {
                            assert(u.servers.contains_key(x));
                        }
                        assert forall|x: Seq<char>| #[trigger] v.ipc_paths.contains(x) implies self@.ipc_paths.contains(x)
                            || handle_paths(servers_out@, streams_out@).contains(x) by {
                            if u.ipc_paths.contains(x) && !self@.ipc_paths.contains(x) {
                                if u.servers[id@].ipc_path == Some(x) {
                                    assert(servers_out@[so0.len() as int]@.ipc_path == Some(x));
                                } else {
                                    let c = choose|c: IdView| kset.contains(c) && #[trigger] u.streams.contains_key(c) && u.streams[c].local_ipc_path == Some(x);
                                    assert(handle_ids(kv).to_set().contains(c));
                                    let q = choose|q: int| 0 <= q < handle_ids(kv).len() && handle_ids(kv)[q] == c;
                                    assert(streams_out@[st0.len() + q] == kv[q]);
                                    assert(kv[q]@ == closed_stream(u.streams[c]));
                                    assert(streams_out@[st0.len() + q]@.local_ipc_path == Some(x));
                                }
                            } else if !u.ipc_paths.contains(x) {
                                let hp = handle_paths(so0, st0);
                                assert(hp.contains(x));
                                if exists|i: int| 0 <= i < so0.len() && #[trigger] so0[i]@.ipc_path == Some(x) {
                                    let i = choose|i: int| 0 <= i < so0.len() && #[trigger] so0[i]@.ipc_path == Some(x);
                                    assert(servers_out@[i] == so0[i]);
                                } else {
                                    let i = choose|i: int| 0 <= i < st0.len() && #[trigger] st0[i]@.local_ipc_path == Some(x);
                                    assert(streams_out@[i] == st0[i]);
                                }
                            }
                        }
                    }
                },
                None => {
                    proof {
                        assert(false);
                    }
                },
            }
        }
        proof {
            reveal(Registry::wf);
            assert(self@.servers.dom() =~= Set::<IdView>::empty()) by {
                assert forall|x: IdView| !self@.servers.contains_key(x) by {
                    if self@.servers.contains_key(x) {
                        let j = key_index(self.server_views(), server_key_fn(), x);
                    }
                }
            }
        }
        while self.streams.len() > 0
            invariant
                self.wf(),
                self.servers@.len() == 0,
                v.servers.dom() == server_handle_ids(servers_out@).to_set(),
                server_handle_ids(servers_out@).no_duplicates(),
                v.streams.dom() == self@.streams.dom() + handle_ids(streams_out@).to_set(),
                self@.streams.dom().disjoint(handle_ids(streams_out@).to_set()),
                handle_ids(streams_out@).no_duplicates(),
                forall|x: IdView| #[trigger] self@.streams.contains_key(x) ==> self@.streams[x] == v.streams[x],
                forall|i: int| 0 <= i < servers_out@.len() ==> #[trigger] servers_out@[i]@ == (ServerView {
                    children: Set::<IdView>::empty(),
                    ..v.servers[servers_out@[i].state.id@]
                }),
                forall|i: int| 0 <= i < streams_out@.len() ==> #[trigger] streams_out@[i]@ == closed_stream(
                    v.streams[streams_out@[i].state.id@],
                ),
                forall|x: Seq<char>| #[trigger] v.ipc_paths.contains(x) ==> self@.ipc_paths.contains(x)
                    || handle_paths(servers_out@, streams_out@).contains(x),
            decreases self.streams@.len(),
        {
            let ghost u = self@;
            let id = self.streams[0].state.id.duplicate();
            proof {
                reveal(Registry::wf);
                assert(self.stream_views()[0] == self.streams@[0]@);
                lemma_key_map_index(self.stream_views(), stream_key_fn(), same_fn(), 0);
            }
            match self.drop_stream(&id) {
                Some(h) => {
                    let ghost st0 = streams_out@;
                    streams_out.push(h);
                    proof {
                        assert(handle_ids(streams_out@) =~= handle_ids(st0).push(id@));
                        assert(!handle_ids(st0).contains(id@)) by {
                            if handle_ids(st0).contains(id@) {
                                let q = choose|q: int| 0 <= q < handle_ids(st0).len() && handle_ids(st0)[q] == id@;
                                assert(handle_ids(st0).to_set().contains(id@));
                            }
                        }
                        lemma_no_dup_push(handle_ids(st0), id@);
                        assert(v.streams.dom() =~= self@.streams.dom() + handle_ids(streams_out@).to_set());
                        assert(self@.streams.dom().disjoint(handle_ids(streams_out@).to_set()));
                        assert forall|i: int| 0 <= i < streams_out@.len() implies #[trigger] streams_out@[i]@ == closed_stream(
                            v.streams[streams_out@[i].state.id@],
                        ) by {
                            if i < st0.len() {
                                assert(streams_out@[i] == st0[i]);
                            }
                        }
                        assert forall|x: Seq<char>| #[trigger] v.ipc_paths.contains(x) implies self@.ipc_paths.contains(x)
                            || handle_paths(servers_out@, streams_out@).contains(x) by {
                            if u.ipc_paths.contains(x) && !self@.ipc_paths.contains(x) {
                                assert(u.streams[id@].local_ipc_path == Some(x)) by {
                                    let c = choose|c: IdView| set![id@].contains(c) && #[trigger] u.streams.contains_key(c) && u.streams[c].local_ipc_path == Some(x);
                                }
                                assert(streams_out@[st0.len() as int]@.local_ipc_path == Some(x));
                            } else if !u.ipc_paths.contains(x) {
                                if exists|i: int| 0 <= i < servers_out@.len() && #[trigger] servers_out@[i]@.ipc_path == Some(x) {
                                } else {
                                    let i = choose|i: int| 0 <= i < st0.len() && #[trigger] st0[i]@.local_ipc_path == Some(x);
                                    assert(streams_out@[i] == st0[i]);
                                }
                            }
                        }
                    }
                },
                None => {
                    proof {
                        assert(false);
                    }
                },
            }
        }
        let ghost pv = self.path_views();
        let ghost pre = self@;
        proof {
            reveal(Registry::wf);
            assert(pre.labels.dom() =~= Set::<Seq<char>>::empty()) by {
                assert forall|n: Seq<char>| !pre.labels.contains_key(n) by {
                    if pre.labels.contains_key(n) {
                        assert(pre.is_registered(pre.labels[n]));
                        if pre.streams.contains_key(pre.labels[n]) {
                            let j = key_index(self.stream_views(), stream_key_fn(), pre.labels[n]);
                        }
                        if pre.servers.contains_key(pre.labels[n]) {
                            let j = key_index(self.server_views(), server_key_fn(), pre.labels[n]);
                        }
                    }
                }
            }
            if self.labels@.len() > 0 {
                lemma_key_map_index(self.label_views(), label_key_fn(), label_id_fn(), 0);
                assert(pre.labels.contains_key(self.label_views()[0].0));
            }
        }
        let mut paths: Vec<String> = Vec::new();
        std::mem::swap(&mut paths, &mut self.ipc_paths);
        proof {
            assert(paths@.map_values(|p: String| p@) =~= pv);
            lemma_key_map_empty(self.label_views(), label_key_fn(), label_id_fn());
            lemma_key_map_empty(self.stream_views(), stream_key_fn(), same_fn());
            lemma_key_map_empty(self.server_views(), server_key_fn(), same_fn());
            assert(self.path_views() =~= Seq::<Seq<char>>::empty());
            assert(self@.ipc_paths =~= Set::<Seq<char>>::empty());
            assert(self@.consistent());
            assert forall|x: Seq<char>| #[trigger] v.ipc_paths.contains(x) implies paths@.map_values(|p: String| p@).contains(x)
                || handle_paths(servers_out@, streams_out@).contains(x) by {
                if pre.ipc_paths.contains(x) {
                    let q = choose|q: int| 0 <= q < pv.len() && pv[q] == x;
                    assert(paths@.map_values(|p: String| p@)[q] == x);
                }
            }
            assert(server_handle_ids(servers_out@).to_set() =~= v.servers.dom());
            assert(handle_ids(streams_out@).to_set() =~= v.streams.dom());
        }
        (servers_out, streams_out, paths)
    }

    /// Display name for an id (label if set, otherwise the id string).
    pub fn display_name(&self, id: &ConnectionId) -> (r: String)
        requires
            self.wf(),
        ensures
            r@ == self@.display_name(id@),
    {
        match self.current_label(id) {
            Some(l) => l,
            None => id.to_string(),
        }
    }
}

impl<S, T> RegistryView<S, T> {
    /// The registry with the transport resources of stream `id` replaced.
    pub open spec fn with_io(self, id: IdView, io: S) -> RegistryView<S, T> {
        RegistryView {
            streams: self.streams.insert(id, StreamView { io, ..self.streams[id] }),
            ..self
        }
    }
}

proof fn lemma_with_io_consistent<S, T>(v: RegistryView<S, T>, id: IdView, io: S)
    requires
        v.consistent(),
        v.streams.contains_key(id),
    ensures
        v.with_io(id, io).consistent(),
{
    let w = v.with_io(id, io);
    assert(w.streams.dom() =~= v.streams.dom());
    assert forall|x: IdView| #[trigger] w.streams.contains_key(x) implies w.streams[x].state == v.streams[x].state
        && w.streams[x].parent == v.streams[x].parent by {
    }
    assert forall|x: IdView| #[trigger] w.label_of(x) == v.label_of(x) by {
    }
    assert forall|x: IdView| #[trigger] w.is_registered(x) == v.is_registered(x) by {
    }
    assert forall|x: IdView| #[trigger] w.streams.contains_key(x) implies w.accepted_ok(x, w.streams[x].parent) by {
        assert(v.accepted_ok(x, v.streams[x].parent));
    }
    assert forall|p: IdView, c: IdView|
        #![trigger w.servers[p].children.contains(c)]
        w.servers.contains_key(p) && w.servers[p].children.contains(c) implies {
        &&& w.streams.contains_key(c)
        &&& w.streams[c].parent == Some(p)
    } by {
    }
}

impl<S, T> Registry<S, T> {
    /// Swap the transport resources of the stream at position `i` (as
    /// `find_stream` gives it) for `io`, handing the previous ones back:
    /// the caller takes them out to write through them and puts them back.
    /// Nothing else of the registry changes.
    pub fn replace_stream_io(&mut self, i: usize, io: S) -> (r: S)
        requires
            old(self).wf(),
            i < old(self).streams@.len(),
        ensures
            r == old(self).streams@[i as int].io,
            final(self).wf(),
            final(self).streams@.len() == old(self).streams@.len(),
            final(self).streams@[i as int].state.id@ == old(self).streams@[i as int].state.id@,
            final(self)@ == old(self)@.with_io(old(self).streams@[i as int].state.id@, io),
    {
        proof {
            reveal(Registry::wf);
        }
        let ghost sv0 = self.stream_views();
        let ghost h0 = self.streams@[i as int]@;
        let StreamHandle { state, io: prev, parent, local_ipc_path } = self.streams.remove(i);
        self.streams.insert(i, StreamHandle { state, io, parent, local_ipc_path });
        proof {
            let e = StreamView { io: io, ..h0 };
            assert(self.stream_views() =~= sv0.update(i as int, e));
            assert(sv0[i as int] == h0);
            lemma_key_map_update(sv0, stream_key_fn(), same_fn(), i as int, e);
            assert(old(self)@.streams.contains_key(h0.state.id)) by {
                lemma_key_map_index(sv0, stream_key_fn(), same_fn(), i as int);
            }
            assert(self@.streams =~= old(self)@.streams.insert(h0.state.id, e));
            assert(self.server_views() == old(self).server_views());
            assert(self@ == old(self)@.with_io(h0.state.id, io));
            lemma_with_io_consistent(old(self)@, h0.state.id, io);
        }
        prev
    }
}

impl<S, T> Default for Registry<S, T> {
    /// An empty registry.
    fn default() -> (r: Registry<S, T>)
        ensures
            r.wf(),
            r@.streams == Map::<IdView, StreamView<S>>::empty(),
            r@.servers == Map::<IdView, ServerView<T>>::empty(),
            r@.labels == Map::<Seq<char>, IdView>::empty(),
            r@.ipc_paths == Set::<Seq<char>>::empty(),
    {
        Registry::new()
    }
}

} // verus!
