//! The `status` listing of the registry.
//!
//! Clients (streams without a parent) first, then every server with its
//! accepted children; each group sorted by the rendered id. Ids that
//! render the same may come in either order.

use vstd::prelude::*;

use crate::event::{CommandOutcome, PeerInfo, PeerView};
use crate::id::{ConnectionId, IdView};
use crate::registry::{
    id_views, same_fn, server_key_fn, stream_key_fn, Registry, RegistryView, ServerHandle, StreamHandle,
    StreamView,
};
use crate::seqmap::{key_index, lemma_key_map_index};
use crate::state::ConnectionStatus;
use crate::text::{
    lemma_lex_le_transitive, lemma_lex_total, lex_le, lex_lt, push_str, str_lt, string_of,
};

verus! {

// ---------------------------------------------------------------------
// What the listing says
// ---------------------------------------------------------------------

pub open spec fn status_tag(s: ConnectionStatus) -> Seq<char> {
    match s {
        ConnectionStatus::Connected => "CONNECTED"@,
        ConnectionStatus::Closing => "CLOSING"@,
        ConnectionStatus::Closed => "CLOSED"@,
    }
}

pub open spec fn label_suffix(l: Option<Seq<char>>) -> Seq<char> {
    match l {
        Some(n) => "    label="@ + n,
        None => Seq::empty(),
    }
}

/// The remote end of a client as the listing shows it.
pub open spec fn client_remote(p: Option<PeerView>) -> Seq<char> {
    match p {
        Some(PeerView::TcpSocket { addr }) => addr,
        Some(PeerView::IpcPid { .. }) => "(ipc peer)"@,
        None => "?"@,
    }
}

/// The peer of an accepted connection as the listing shows it.
pub open spec fn child_peer(p: Option<PeerView>) -> Seq<char> {
    match p {
        Some(x) => x.render(),
        None => "?"@,
    }
}

pub open spec fn client_line<S>(h: StreamView<S>) -> Seq<char> {
    "  "@ + h.state.id.text() + " -> "@ + client_remote(h.state.peer_info) + "    ["@ + status_tag(
        h.state.status,
    ) + "]"@ + label_suffix(h.state.label) + "\n"@
}

pub open spec fn child_line<S>(h: StreamView<S>) -> Seq<char> {
    "    "@ + h.state.id.text() + "    peer="@ + child_peer(h.state.peer_info) + "    ["@
        + status_tag(h.state.status) + "]"@ + label_suffix(h.state.label) + "\n"@
}

pub open spec fn client_lines<S, T>(v: RegistryView<S, T>, order: Seq<IdView>) -> Seq<char>
    decreases order.len(),
{
    if order.len() == 0 {
        Seq::empty()
    } else {
        client_lines(v, order.drop_last()) + client_line(v.streams[order.last()])
    }
}

pub open spec fn child_lines<S, T>(v: RegistryView<S, T>, order: Seq<IdView>) -> Seq<char>
    decreases order.len(),
{
    if order.len() == 0 {
        Seq::empty()
    } else {
        child_lines(v, order.drop_last()) + child_line(v.streams[order.last()])
    }
}

pub open spec fn server_block<S, T>(v: RegistryView<S, T>, id: IdView, kids: Seq<IdView>) -> Seq<
    char,
> {
    "  "@ + id.text() + "\n"@ + (if kids.len() == 0 {
        "    (none)\n"@
    } else {
        child_lines(v, kids)
    })
}

pub open spec fn server_blocks<S, T>(
    v: RegistryView<S, T>,
    order: Seq<IdView>,
    kids: Seq<Seq<IdView>>,
) -> Seq<char>
    decreases order.len(),
{
    if order.len() == 0 {
        Seq::empty()
    } else {
        server_blocks(v, order.drop_last(), kids.drop_last()) + server_block(
            v,
            order.last(),
            kids[order.len() - 1],
        )
    }
}

/// The listing for client order `cl`, server order `sl` and children
/// orders `kl`.
pub open spec fn status_text<S, T>(
    v: RegistryView<S, T>,
    cl: Seq<IdView>,
    sl: Seq<IdView>,
    kl: Seq<Seq<IdView>>,
) -> Seq<char> {
    "CLIENTS\n"@ + (if cl.len() == 0 {
        "  (none)\n"@
    } else {
        client_lines(v, cl)
    }) + "\nSERVERS\n"@ + (if sl.len() == 0 {
        "  (none)\n"@
    } else {
        server_blocks(v, sl, kl)
    })
}

/// Sorted by rendered id.
pub open spec fn sorted_by_text(s: Seq<IdView>) -> bool {
    forall|i: int, j: int| 0 <= i < j < s.len() ==> lex_le(s[i].text(), s[j].text())
}

/// `s` lists the ids of `set`, each once, sorted by rendered id.
pub open spec fn listing(s: Seq<IdView>, set: Set<IdView>) -> bool {
    &&& s.no_duplicates()
    &&& s.to_set() == set
    &&& sorted_by_text(s)
}

/// The ids of streams without a parent.
pub open spec fn client_ids<S, T>(v: RegistryView<S, T>) -> Set<IdView> {
    Set::new(|id: IdView| v.streams.contains_key(id) && v.streams[id].parent is None)
}

/// The orders a listing goes by.
pub open spec fn status_orders<S, T>(
    v: RegistryView<S, T>,
    cl: Seq<IdView>,
    sl: Seq<IdView>,
    kl: Seq<Seq<IdView>>,
) -> bool {
    &&& listing(cl, client_ids(v))
    &&& listing(sl, v.servers.dom())
    &&& kl.len() == sl.len()
    &&& forall|i: int| 0 <= i < sl.len() ==> #[trigger] listing(kl[i], v.servers[sl[i]].children)
}

// ---------------------------------------------------------------------
// Sorting
// ---------------------------------------------------------------------

/// A text to sort by and the position it came from.
pub struct SortEntry {
    pub text: String,
    pub pos: usize,
}

pub open spec fn entry_views(s: Seq<SortEntry>) -> Seq<(Seq<char>, usize)> {
    s.map_values(|e: SortEntry| (e.text@, e.pos))
}

pub open spec fn sorted_entries(s: Seq<(Seq<char>, usize)>) -> bool {
    forall|i: int, j: int| 0 <= i < j < s.len() ==> lex_le(s[i].0, s[j].0)
}

proof fn lemma_sorted_insert(s: Seq<(Seq<char>, usize)>, p: int, x: (Seq<char>, usize))
    requires
        sorted_entries(s),
        0 <= p <= s.len(),
        forall|q: int| 0 <= q < p ==> !lex_lt(x.0, #[trigger] s[q].0),
        p < s.len() ==> lex_lt(x.0, s[p].0),
    ensures
        sorted_entries(s.insert(p, x)),
{
    let t = s.insert(p, x);
    assert forall|i: int, j: int| 0 <= i < j < t.len() implies lex_le(t[i].0, t[j].0) by {
        if i < p && j < p {
            assert(t[i] == s[i] && t[j] == s[j]);
        } else if i < p && j == p {
            assert(t[i] == s[i]);
            lemma_lex_total(x.0, s[i].0);
        } else if i < p {
            assert(t[i] == s[i] && t[j] == s[j - 1]);
        } else if i == p {
            assert(t[j] == s[j - 1]);
            lemma_lex_total(x.0, s[p].0);
            if j - 1 > p {
                lemma_lex_le_transitive(x.0, s[p].0, s[j - 1].0);
            }
        } else {
            assert(t[i] == s[i - 1] && t[j] == s[j - 1]);
        }
    }
}

/// Stable insertion sort by text.
pub fn sort_entries(items: &Vec<SortEntry>) -> (r: Vec<SortEntry>)
    requires
        entry_views(items@).no_duplicates(),
    ensures
        entry_views(r@).no_duplicates(),
        entry_views(r@).to_set() == entry_views(items@).to_set(),
        sorted_entries(entry_views(r@)),
{
    let mut out: Vec<SortEntry> = Vec::new();
    let mut k: usize = 0;
    proof {
        assert(entry_views(out@).to_set() =~= entry_views(items@).take(0).to_set());
    }
    while k < items.len()
        invariant
            0 <= k <= items@.len(),
            entry_views(items@).no_duplicates(),
            entry_views(out@).no_duplicates(),
            entry_views(out@).to_set() == entry_views(items@).take(k as int).to_set(),
            sorted_entries(entry_views(out@)),
        decreases items@.len() - k,
    {
        let e = SortEntry { text: items[k].text.clone(), pos: items[k].pos };
        let ghost x = (e.text@, e.pos);
        let mut p: usize = 0;
        while p < out.len() && !str_lt(e.text.as_str(), out[p].text.as_str())
            invariant
                0 <= p <= out@.len(),
                x.0 == e.text@,
                forall|q: int| 0 <= q < p ==> !lex_lt(x.0, #[trigger] entry_views(out@)[q].0),
            decreases out@.len() - p,
        {
            assert(entry_views(out@)[p as int].0 == out@[p as int].text@);
            p = p + 1;
        }
        let ghost ov = entry_views(out@);
        proof {
            if p < out@.len() {
                assert(ov[p as int].0 == out@[p as int].text@);
                assert(lex_lt(x.0, ov[p as int].0));
            }
            lemma_sorted_insert(ov, p as int, x);
            assert(entry_views(items@)[k as int] == x);
            assert(!ov.contains(x)) by {
                if ov.contains(x) {
                    let q = choose|q: int| 0 <= q < ov.len() && ov[q] == x;
                    assert(ov.to_set().contains(x));
                    let w = choose|w: int| 0 <= w < k && entry_views(items@).take(k as int)[w] == x;
                    assert(entry_views(items@)[w] == entry_views(items@)[k as int]);
                }
            }
        }
        out.insert(p, e);
        proof {
            assert(entry_views(out@) =~= ov.insert(p as int, x));
            ov.insert_ensures(p as int, x);
            assert(ov.insert(p as int, x).to_set() =~= ov.to_set().insert(x)) by {
                assert forall|y: (Seq<char>, usize)| ov.insert(p as int, x).to_set().contains(y) <==> ov.to_set().insert(x).contains(y) by {
                    let t = ov.insert(p as int, x);
                    if t.to_set().contains(y) {
                        let q = choose|q: int| 0 <= q < t.len() && t[q] == y;
                        if q < p {
                            assert(t[q] == ov[q]);
                        } else if q > p {
                            assert(t[q] == ov[q - 1]);
                        }
                    }
                    if ov.to_set().contains(y) {
                        let q = choose|q: int| 0 <= q < ov.len() && ov[q] == y;
                        if q < p {
                            assert(t[q] == ov[q]);
                        } else {
                            assert(t[q + 1] == ov[q]);
                        }
                    }
                    if y == x {
                        assert(t[p as int] == x);
                    }
                }
            }
            assert(entry_views(items@).take(k as int + 1) =~= entry_views(items@).take(k as int).push(x));
            entry_views(items@).take(k as int).lemma_push_to_set_commute(x);
            assert(ov.insert(p as int, x).no_duplicates()) by {
                let t = ov.insert(p as int, x);
                assert forall|a: int, b: int| 0 <= a < t.len() && 0 <= b < t.len() && a != b implies t[a] != t[b] by {
                    let a2 = if a < p { a } else { a - 1 };
                    let b2 = if b < p { b } else { b - 1 };
                    if a == p {
                        assert(t[b] == ov[b2]);
                        assert(ov.contains(t[b]));
                    } else if b == p {
                        assert(t[a] == ov[a2]);
                        assert(ov.contains(t[a]));
                    } else {
                        assert(t[a] == ov[a2] && t[b] == ov[b2]);
                    }
                }
            }
        }
        k = k + 1;
    }
    proof {
        assert(entry_views(items@).take(items@.len() as int) =~= entry_views(items@));
    }
    out
}

// ---------------------------------------------------------------------
// From sorted entries to a listing
// ---------------------------------------------------------------------

/// The ids that sorted entries stand for: entry `e` stands for `ids[e.pos]`.
pub open spec fn entries_order(es: Seq<(Seq<char>, usize)>, ids: Seq<IdView>) -> Seq<IdView> {
    es.map_values(|e: (Seq<char>, usize)| ids[e.1 as int])
}

/// Entries collected from `ids`: one per position that satisfies the
/// filter, with the rendered id as text, in increasing positions.
pub open spec fn collected(es: Seq<(Seq<char>, usize)>, ids: Seq<IdView>, keep: Set<int>, upto: int) -> bool {
    &&& upto <= ids.len()
    &&& forall|k: int| 0 <= k < es.len() ==> {
        &&& ((#[trigger] es[k]).1 as int) < upto
        &&& keep.contains(es[k].1 as int)
        &&& es[k].0 == ids[es[k].1 as int].text()
    }
    &&& forall|a: int, b: int| 0 <= a < b < es.len() ==> es[a].1 < es[b].1
    &&& forall|p: int| 0 <= p < upto && #[trigger] keep.contains(p) ==> exists|k: int| 0 <= k < es.len() && es[k].1 == p
}

/// One more position looked at: taken when `keep` selects it.
proof fn lemma_collected_step(
    es: Seq<(Seq<char>, usize)>,
    ids: Seq<IdView>,
    keep: Set<int>,
    pos: usize,
)
    requires
        collected(es, ids, keep, pos as int),
        pos < ids.len(),
    ensures
        keep.contains(pos as int) ==> collected(es.push((ids[pos as int].text(), pos)), ids, keep, pos + 1),
        !keep.contains(pos as int) ==> collected(es, ids, keep, pos + 1),
{
    let upto = pos as int;
    if keep.contains(upto) {
        let t = es.push((ids[upto].text(), pos));
        assert forall|k: int| 0 <= k < t.len() implies {
            &&& ((#[trigger] t[k]).1 as int) < upto + 1
            &&& keep.contains(t[k].1 as int)
            &&& t[k].0 == ids[t[k].1 as int].text()
        } by {
            if k < es.len() {
                assert(t[k] == es[k]);
            } else {
                assert(t[k] == (ids[upto].text(), pos));
            }
        }
        assert forall|a: int, b: int| 0 <= a < b < t.len() implies t[a].1 < t[b].1 by {
            assert(t[a] == es[a]);
            if b < es.len() {
                assert(t[b] == es[b]);
            }
        }
        assert forall|p: int| 0 <= p < upto + 1 && #[trigger] keep.contains(p) implies exists|k: int| 0 <= k < t.len() && t[k].1 == p by {
            if p < upto {
                let k = choose|k: int| 0 <= k < es.len() && es[k].1 == p;
                assert(t[k] == es[k]);
            } else {
                assert(t[es.len() as int].1 == p);
            }
        }
    }
}

proof fn lemma_collected_no_dup(es: Seq<(Seq<char>, usize)>, ids: Seq<IdView>, keep: Set<int>, upto: int)
    requires
        collected(es, ids, keep, upto),
    ensures
        es.no_duplicates(),
{
    assert forall|a: int, b: int| 0 <= a < es.len() && 0 <= b < es.len() && a != b implies es[a] != es[b] by {
        if a < b {
            assert(es[a].1 < es[b].1);
        } else {
            assert(es[b].1 < es[a].1);
        }
    }
}

proof fn lemma_listing(
    es: Seq<(Seq<char>, usize)>,
    orig: Seq<(Seq<char>, usize)>,
    ids: Seq<IdView>,
    keep: Set<int>,
    target: Set<IdView>,
)
    requires
        collected(orig, ids, keep, ids.len() as int),
        es.no_duplicates(),
        es.to_set() == orig.to_set(),
        sorted_entries(es),
        ids.no_duplicates(),
        forall|x: IdView| #[trigger] target.contains(x) <==> exists|p: int| 0 <= p < ids.len() && keep.contains(p) && ids[p] == x,
    ensures
        listing(entries_order(es, ids), target),
        forall|k: int| 0 <= k < es.len() ==> (#[trigger] es[k]).1 < ids.len(),
{
    let o = entries_order(es, ids);
    assert forall|k: int| 0 <= k < es.len() implies {
        &&& (es[k].1 as int) < ids.len()
        &&& keep.contains(es[k].1 as int)
        &&& es[k].0 == ids[es[k].1 as int].text()
    } by {
        assert(es.to_set().contains(es[k]));
        let q = choose|q: int| 0 <= q < orig.len() && orig[q] == es[k];
        assert(keep.contains(orig[q].1 as int));
    }
    assert forall|a: int, b: int| 0 <= a < o.len() && 0 <= b < o.len() && a != b implies o[a] != o[b] by {
        if es[a].1 == es[b].1 {
            assert(es[a] == es[b]);
        }
    }
    assert forall|i: int, j: int| 0 <= i < j < o.len() implies lex_le(o[i].text(), o[j].text()) by {
    }
    assert forall|x: IdView| o.to_set().contains(x) <==> target.contains(x) by {
        if o.to_set().contains(x) {
            let k = choose|k: int| 0 <= k < o.len() && o[k] == x;
            assert(keep.contains(es[k].1 as int) && ids[es[k].1 as int] == x);
        }
        if target.contains(x) {
            let p = choose|p: int| 0 <= p < ids.len() && keep.contains(p) && ids[p] == x;
            let q = choose|q: int| 0 <= q < orig.len() && orig[q].1 == p;
            assert(orig.to_set().contains(orig[q]));
            let k = choose|k: int| 0 <= k < es.len() && es[k] == orig[q];
            assert(o[k] == x);
        }
    }
    assert(o.to_set() =~= target);
}

// ---------------------------------------------------------------------
// Rendering
// ---------------------------------------------------------------------

/// The tag a status is listed with.
pub fn render_status_tag(s: ConnectionStatus) -> (r: &'static str)
    ensures
        r@ == status_tag(s),
{
    match s {
        ConnectionStatus::Connected => "CONNECTED",
        ConnectionStatus::Closing => "CLOSING",
        ConnectionStatus::Closed => "CLOSED",
    }
}

fn push_tag(out: &mut String, s: ConnectionStatus)
    ensures
        final(out)@ == old(out)@ + status_tag(s),
{
    push_str(out, render_status_tag(s));
}

fn push_label_suffix(out: &mut String, l: &Option<String>)
    ensures
        final(out)@ == old(out)@ + label_suffix(l.deep_view()),
{
    match l {
        Some(n) => {
            push_str(out, "    label=");
            push_str(out, n.as_str());
            assert(final(out)@ =~= old(out)@ + label_suffix(l.deep_view()));
        },
        None => {
            assert(old(out)@ + label_suffix(l.deep_view()) =~= old(out)@);
        },
    }
}

fn push_client_line<S>(out: &mut String, h: &StreamHandle<S>)
    ensures
        final(out)@ == old(out)@ + client_line(h@),
{
    push_str(out, "  ");
    push_str(out, h.state.id.to_string().as_str());
    push_str(out, " -> ");
    match &h.state.peer_info {
        Some(PeerInfo::TcpSocket { addr }) => push_str(out, addr.as_str()),
        Some(PeerInfo::IpcPid { .. }) => push_str(out, "(ipc peer)"),
        None => push_str(out, "?"),
    }
    push_str(out, "    [");
    push_tag(out, h.state.status);
    push_str(out, "]");
    push_label_suffix(out, &h.state.label);
    push_str(out, "\n");
    assert(final(out)@ =~= old(out)@ + client_line(h@));
}

fn push_child_line<S>(out: &mut String, h: &StreamHandle<S>)
    ensures
        final(out)@ == old(out)@ + child_line(h@),
{
    push_str(out, "    ");
    push_str(out, h.state.id.to_string().as_str());
    push_str(out, "    peer=");
    match &h.state.peer_info {
        Some(p) => push_str(out, p.render().as_str()),
        None => push_str(out, "?"),
    }
    push_str(out, "    [");
    push_tag(out, h.state.status);
    push_str(out, "]");
    push_label_suffix(out, &h.state.label);
    push_str(out, "\n");
    assert(final(out)@ =~= old(out)@ + child_line(h@));
}

/// The positions `0 .. n`.
pub open spec fn all_positions(n: int) -> Set<int> {
    Set::new(|p: int| 0 <= p < n)
}

/// One entry per id, in order.
fn id_entries(ids: &Vec<ConnectionId>) -> (r: Vec<SortEntry>)
    ensures
        collected(entry_views(r@), id_views(ids@), all_positions(ids@.len() as int), ids@.len() as int),
{
    let ghost keep = all_positions(ids@.len() as int);
    let mut entries: Vec<SortEntry> = Vec::new();
    let mut c: usize = 0;
    while c < ids.len()
        invariant
            0 <= c <= ids@.len(),
            keep == all_positions(ids@.len() as int),
            collected(entry_views(entries@), id_views(ids@), keep, c as int),
        decreases ids@.len() - c,
    {
        let ghost ev0 = entry_views(entries@);
        proof {
            lemma_collected_step(ev0, id_views(ids@), keep, c);
            assert(keep.contains(c as int));
        }
        let e = SortEntry { text: ids[c].to_string(), pos: c };
        entries.push(e);
        proof {
            assert(entry_views(entries@) =~= ev0.push((id_views(ids@)[c as int].text(), c)));
        }
        c = c + 1;
    }
    entries
}

impl<S, T> Registry<S, T> {
    /// The ids of the streams, in table order.
    pub open spec fn stream_id_seq(&self) -> Seq<IdView> {
        self.streams@.map_values(|h: StreamHandle<S>| h.state.id@)
    }

    /// The ids of the servers, in table order.
    pub open spec fn server_id_seq(&self) -> Seq<IdView> {
        self.servers@.map_values(|h: ServerHandle<T>| h.state.id@)
    }

    proof fn lemma_id_seqs(&self)
        requires
            self.wf(),
        ensures
            self.stream_id_seq().no_duplicates(),
            self.server_id_seq().no_duplicates(),
            forall|x: IdView| #[trigger] self@.streams.contains_key(x) <==> exists|p: int| 0 <= p < self.streams@.len() && self.stream_id_seq()[p] == x,
            forall|x: IdView| #[trigger] self@.servers.contains_key(x) <==> exists|p: int| 0 <= p < self.servers@.len() && self.server_id_seq()[p] == x,
            forall|p: int| 0 <= p < self.streams@.len() ==> #[trigger] self@.streams[self.stream_id_seq()[p]] == self.streams@[p]@,
            forall|p: int| 0 <= p < self.servers@.len() ==> #[trigger] self@.servers[self.server_id_seq()[p]] == self.servers@[p]@,
    {
        reveal(Registry::wf);
        let sv = self.stream_views();
        let rv = self.server_views();
        assert forall|a: int, b: int| 0 <= a < self.streams@.len() && 0 <= b < self.streams@.len() && a != b implies self.stream_id_seq()[a] != self.stream_id_seq()[b] by {
            assert(sv[a] == self.streams@[a]@ && sv[b] == self.streams@[b]@);
        }
        assert forall|a: int, b: int| 0 <= a < self.servers@.len() && 0 <= b < self.servers@.len() && a != b implies self.server_id_seq()[a] != self.server_id_seq()[b] by {
            assert(rv[a] == self.servers@[a]@ && rv[b] == self.servers@[b]@);
        }
        assert forall|x: IdView| #[trigger] self@.streams.contains_key(x) <==> exists|p: int| 0 <= p < self.streams@.len() && self.stream_id_seq()[p] == x by {
            if self@.streams.contains_key(x) {
                let p = key_index(sv, stream_key_fn(), x);
                assert(sv[p] == self.streams@[p]@);
                assert(self.stream_id_seq()[p] == x);
            }
            if exists|p: int| 0 <= p < self.streams@.len() && self.stream_id_seq()[p] == x {
                let p = choose|p: int| 0 <= p < self.streams@.len() && self.stream_id_seq()[p] == x;
                assert(sv[p] == self.streams@[p]@);
                lemma_key_map_index(sv, stream_key_fn(), same_fn(), p);
            }
        }
        assert forall|x: IdView| #[trigger] self@.servers.contains_key(x) <==> exists|p: int| 0 <= p < self.servers@.len() && self.server_id_seq()[p] == x by {
            if self@.servers.contains_key(x) {
                let p = key_index(rv, server_key_fn(), x);
                assert(rv[p] == self.servers@[p]@);
                assert(self.server_id_seq()[p] == x);
            }
            if exists|p: int| 0 <= p < self.servers@.len() && self.server_id_seq()[p] == x {
                let p = choose|p: int| 0 <= p < self.servers@.len() && self.server_id_seq()[p] == x;
                assert(rv[p] == self.servers@[p]@);
                lemma_key_map_index(rv, server_key_fn(), same_fn(), p);
            }
        }
        assert forall|p: int| 0 <= p < self.streams@.len() implies #[trigger] self@.streams[self.stream_id_seq()[p]] == self.streams@[p]@ by {
            assert(sv[p] == self.streams@[p]@);
            lemma_key_map_index(sv, stream_key_fn(), same_fn(), p);
        }
        assert forall|p: int| 0 <= p < self.servers@.len() implies #[trigger] self@.servers[self.server_id_seq()[p]] == self.servers@[p]@ by {
            assert(rv[p] == self.servers@[p]@);
            lemma_key_map_index(rv, server_key_fn(), same_fn(), p);
        }
    }

    /// Positions of the streams without a parent.
    pub open spec fn client_positions(&self) -> Set<int> {
        Set::new(|p: int| 0 <= p < self.streams@.len() && self.streams@[p].parent is None)
    }

    /// One entry per client, in table order.
    fn client_entries(&self) -> (r: Vec<SortEntry>)
        ensures
            collected(
                entry_views(r@),
                self.stream_id_seq(),
                self.client_positions(),
                self.streams@.len() as int,
            ),
    {
        let mut entries: Vec<SortEntry> = Vec::new();
        let mut i: usize = 0;
        while i < self.streams.len()
            invariant
                0 <= i <= self.streams@.len(),
                collected(entry_views(entries@), self.stream_id_seq(), self.client_positions(), i as int),
            decreases self.streams@.len() - i,
        {
            let ghost ev0 = entry_views(entries@);
            proof {
                lemma_collected_step(ev0, self.stream_id_seq(), self.client_positions(), i);
                assert(self.stream_id_seq()[i as int] == self.streams@[i as int].state.id@);
            }
            if self.streams[i].parent.is_none() {
                let e = SortEntry { text: self.streams[i].state.id.to_string(), pos: i };
                entries.push(e);
                proof {
                    assert(self.client_positions().contains(i as int));
                    assert(entry_views(entries@) =~= ev0.push((self.stream_id_seq()[i as int].text(), i)));
                }
            } else {
                proof {
                    assert(!self.client_positions().contains(i as int));
                }
            }
            i = i + 1;
        }
        entries
    }

    /// One entry per server, in table order.
    fn server_entries(&self) -> (r: Vec<SortEntry>)
        ensures
            collected(
                entry_views(r@),
                self.server_id_seq(),
                all_positions(self.servers@.len() as int),
                self.servers@.len() as int,
            ),
    {
        let ghost keep = all_positions(self.servers@.len() as int);
        let mut entries: Vec<SortEntry> = Vec::new();
        let mut j: usize = 0;
        while j < self.servers.len()
            invariant
                0 <= j <= self.servers@.len(),
                keep == all_positions(self.servers@.len() as int),
                collected(entry_views(entries@), self.server_id_seq(), keep, j as int),
            decreases self.servers@.len() - j,
        {
            let ghost ev0 = entry_views(entries@);
            proof {
                lemma_collected_step(ev0, self.server_id_seq(), keep, j);
                assert(self.server_id_seq()[j as int] == self.servers@[j as int].state.id@);
                assert(keep.contains(j as int));
            }
            let e = SortEntry { text: self.servers[j].state.id.to_string(), pos: j };
            entries.push(e);
            proof {
                assert(entry_views(entries@) =~= ev0.push((self.server_id_seq()[j as int].text(), j)));
            }
            j = j + 1;
        }
        entries
    }

    /// Appends a server's heading line and the lines of its children.
    fn push_server_block(&self, out: &mut String, sj: usize) -> (kids: Ghost<Seq<IdView>>)
        requires
            self.wf(),
            sj < self.servers@.len(),
        ensures
            listing(kids@, self@.servers[self.server_id_seq()[sj as int]].children),
            final(out)@ == old(out)@ + server_block(self@, self.server_id_seq()[sj as int], kids@),
    {
        let ghost v = self@;
        let ghost sid = self.server_id_seq()[sj as int];
        proof {
            self.lemma_id_seqs();
            reveal(Registry::wf);
            assert(self.servers@[sj as int].wf());
            assert(self.server_id_seq()[sj as int] == self.servers@[sj as int].state.id@);
            assert(v.servers.contains_key(sid));
        }
        push_str(out, "  ");
        push_str(out, self.servers[sj].state.id.to_string().as_str());
        push_str(out, "\n");
        let ghost block_head = out@;
        let children = &self.servers[sj].children;
        let ghost cids = id_views(children@);
        let ghost keep = all_positions(cids.len() as int);
        let entries = id_entries(children);
        proof {
            lemma_collected_no_dup(entry_views(entries@), cids, keep, cids.len() as int);
            assert(v.servers[sid] == self.servers@[sj as int]@);
            assert forall|x: IdView| #[trigger] v.servers[sid].children.contains(x) <==> exists|p: int|
                0 <= p < cids.len() && keep.contains(p) && cids[p] == x by {
                if v.servers[sid].children.contains(x) {
                    let p = choose|p: int| 0 <= p < cids.len() && cids[p] == x;
                    assert(keep.contains(p));
                }
            }
        }
        let sorted = sort_entries(&entries);
        let ghost kids = entries_order(entry_views(sorted@), cids);
        proof {
            lemma_listing(entry_views(sorted@), entry_views(entries@), cids, keep, v.servers[sid].children);
            assert forall|w: int| 0 <= w < sorted@.len() implies (#[trigger] sorted@[w]).pos < cids.len() by {
                assert(entry_views(sorted@)[w].1 == sorted@[w].pos);
            }
        }
        let mut q: usize = 0;
        while q < sorted.len()
            invariant
                self.wf(),
                v == self@,
                v.consistent(),
                sj < self.servers@.len(),
                children == &self.servers@[sj as int].children,
                0 <= q <= sorted@.len(),
                kids == entries_order(entry_views(sorted@), cids),
                cids == id_views(children@),
                forall|w: int| 0 <= w < sorted@.len() ==> (#[trigger] sorted@[w]).pos < cids.len(),
                v.servers.contains_key(sid),
                v.servers[sid] == self.servers@[sj as int]@,
                out@ == block_head + child_lines(v, kids.take(q as int)),
            decreases sorted@.len() - q,
        {
            let cpos = sorted[q].pos;
            let si = self.find_stream(&children[cpos]);
            proof {
                assert(entry_views(sorted@)[q as int].1 == cpos);
                assert(kids[q as int] == cids[cpos as int]);
                assert(cids.contains(cids[cpos as int]));
                assert(v.servers[sid].children.contains(cids[cpos as int]));
                assert(v.streams.contains_key(cids[cpos as int]));
            }
            match si {
                Some(si) => push_child_line(out, &self.streams[si]),
                None => {},
            }
            proof {
                assert(kids.take(q as int + 1).drop_last() =~= kids.take(q as int));
            }
            q = q + 1;
        }
        proof {
            assert(kids.take(sorted@.len() as int) =~= kids);
        }
        if sorted.len() == 0 {
            push_str(out, "    (none)\n");
        }
        proof {
            assert(out@ =~= old(out)@ + server_block(v, sid, kids));
        }
        Ghost(kids)
    }

    /// Render current `status` output: clients, then servers with their
    /// accepted children, each sorted by id.
    pub fn render_status(&self) -> (r: String)
        requires
            self.wf(),
        ensures
            exists|cl: Seq<IdView>, sl: Seq<IdView>, kl: Seq<Seq<IdView>>|
                status_orders(self@, cl, sl, kl) && r@ == status_text(self@, cl, sl, kl),
    {
        let ghost v = self@;
        proof {
            self.lemma_id_seqs();
        }
        let ghost sids = self.stream_id_seq();
        let ghost keep_c = self.client_positions();
        // Clients.
        let entries = self.client_entries();
        proof {
            lemma_collected_no_dup(entry_views(entries@), sids, keep_c, sids.len() as int);
        }
        let sorted = sort_entries(&entries);
        let ghost cl = entries_order(entry_views(sorted@), sids);
        proof {
            assert forall|x: IdView| #[trigger] client_ids(v).contains(x) <==> exists|p: int|
                0 <= p < sids.len() && keep_c.contains(p) && sids[p] == x by {
                if client_ids(v).contains(x) {
                    let p = choose|p: int| 0 <= p < self.streams@.len() && sids[p] == x;
                    assert(v.streams[sids[p]] == self.streams@[p]@);
                    assert(keep_c.contains(p));
                }
                if exists|p: int| 0 <= p < sids.len() && keep_c.contains(p) && sids[p] == x {
                    let p = choose|p: int| 0 <= p < sids.len() && keep_c.contains(p) && sids[p] == x;
                    assert(v.streams[sids[p]] == self.streams@[p]@);
                }
            }
            lemma_listing(entry_views(sorted@), entry_views(entries@), sids, keep_c, client_ids(v));
            assert forall|w: int| 0 <= w < sorted@.len() implies (#[trigger] sorted@[w]).pos < self.streams@.len() by {
                assert(entry_views(sorted@)[w].1 == sorted@[w].pos);
            }
        }
        let mut out = string_of("CLIENTS\n");
        let ghost head = out@;
        if sorted.len() == 0 {
            push_str(&mut out, "  (none)\n");
        } else {
            let mut k: usize = 0;
            while k < sorted.len()
                invariant
                    0 <= k <= sorted@.len(),
                    cl == entries_order(entry_views(sorted@), sids),
                    sids == self.stream_id_seq(),
                    forall|w: int| 0 <= w < sorted@.len() ==> (#[trigger] sorted@[w]).pos < self.streams@.len(),
                    forall|p: int| 0 <= p < self.streams@.len() ==> #[trigger] v.streams[sids[p]] == self.streams@[p]@,
                    out@ == head + client_lines(v, cl.take(k as int)),
                decreases sorted@.len() - k,
            {
                let pos = sorted[k].pos;
                push_client_line(&mut out, &self.streams[pos]);
                proof {
                    assert(entry_views(sorted@)[k as int].1 == pos);
                    assert(cl.take(k as int + 1).drop_last() =~= cl.take(k as int));
                    assert(cl[k as int] == sids[pos as int]);
                }
                k = k + 1;
            }
            proof {
                assert(cl.take(sorted@.len() as int) =~= cl);
            }
        }
        push_str(&mut out, "\nSERVERS\n");
        // Servers.
        let ghost rids = self.server_id_seq();
        let ghost keep_s = all_positions(rids.len() as int);
        let sentries = self.server_entries();
        proof {
            lemma_collected_no_dup(entry_views(sentries@), rids, keep_s, rids.len() as int);
        }
        let ssorted = sort_entries(&sentries);
        let ghost sl = entries_order(entry_views(ssorted@), rids);
        proof {
            assert forall|x: IdView| #[trigger] v.servers.dom().contains(x) <==> exists|p: int|
                0 <= p < rids.len() && keep_s.contains(p) && rids[p] == x by {
                if v.servers.dom().contains(x) {
                    let p = choose|p: int| 0 <= p < self.servers@.len() && rids[p] == x;
                    assert(keep_s.contains(p));
                }
            }
            lemma_listing(entry_views(ssorted@), entry_views(sentries@), rids, keep_s, v.servers.dom());
            assert forall|w: int| 0 <= w < ssorted@.len() implies (#[trigger] ssorted@[w]).pos < self.servers@.len() by {
                assert(entry_views(ssorted@)[w].1 == ssorted@[w].pos);
            }
        }
        let ghost stail = out@;
        let ghost mut kl: Seq<Seq<IdView>> = Seq::empty();
        if ssorted.len() == 0 {
            push_str(&mut out, "  (none)\n");
        } else {
            let mut k: usize = 0;
            while k < ssorted.len()
                invariant
                    self.wf(),
                    v == self@,
                    0 <= k <= ssorted@.len(),
                    sl == entries_order(entry_views(ssorted@), rids),
                    rids == self.server_id_seq(),
                    forall|w: int| 0 <= w < ssorted@.len() ==> (#[trigger] ssorted@[w]).pos < self.servers@.len(),
                    kl.len() == k,
                    forall|w: int| 0 <= w < k ==> #[trigger] listing(kl[w], v.servers[sl[w]].children),
                    out@ == stail + server_blocks(v, sl.take(k as int), kl),
                decreases ssorted@.len() - k,
            {
                let sj = ssorted[k].pos;
                let kids = self.push_server_block(&mut out, sj);
                proof {
                    assert(entry_views(ssorted@)[k as int].1 == sj);
                    assert(sl[k as int] == rids[sj as int]);
                    let kl0 = kl;
                    kl = kl.push(kids@);
                    assert(sl.take(k as int + 1).drop_last() =~= sl.take(k as int));
                    assert(kl.drop_last() =~= kl0);
                    assert forall|w: int| 0 <= w < k + 1 implies #[trigger] listing(kl[w], v.servers[sl[w]].children) by {
                        if w < k {
                            assert(kl[w] == kl0[w]);
                        }
                    }
                }
                k = k + 1;
            }
            proof {
                assert(sl.take(ssorted@.len() as int) =~= sl);
            }
        }
        proof {
            assert(status_orders(v, cl, sl, kl));
            assert(out@ =~= status_text(v, cl, sl, kl));
        }
        out
    }

    /// Execute a parsed `Command::Status`.
    pub fn cmd_status(&self) -> (r: CommandOutcome)
        requires
            self.wf(),
        ensures
            r.success,
            exists|cl: Seq<IdView>, sl: Seq<IdView>, kl: Seq<Seq<IdView>>|
                status_orders(self@, cl, sl, kl) && r.message@ == status_text(self@, cl, sl, kl),
    {
        CommandOutcome::ok(self.render_status())
    }
}

} // verus!
