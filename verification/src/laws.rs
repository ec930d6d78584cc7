//! Properties of the library as a whole, over several operations.

use vstd::prelude::*;

use crate::args::{cli_spec, level_flag, CliErrorView};
use crate::event::PeerView;
use crate::hex::{format_hex_spec, hex_pair, joined, parse_hex_spec, upper_hex_char, hex_bytes, first_non_hex};
use crate::id::IdView;
use crate::parser::{is_sep, tokens_of};
use crate::registry::{kind_rank, origin_key, origin_server, with_disambig, RegistryView};
use crate::commands::failure_lines;
use crate::status::{
    child_line, child_lines, child_peer, client_ids, client_line, client_lines, client_remote, listing,
    server_block, server_blocks, status_orders, status_tag, status_text,
};
use crate::runtime::{accepted_stream, tagged};
use crate::id::suffix_text;
use crate::text::{
    dec_text, hex_value, is_digit, is_hex_digit, lemma_dec_text, lemma_first_index_at,
    lemma_last_index_at, lemma_parse_dec_text, lemma_parse_needs_digits,
};
use crate::token::{dot_form, hash_form, token_id};

verus! {

// ---------------------------------------------------------------------
// Naming of accepted connections
// ---------------------------------------------------------------------

/// Connections that a server accepts from one remote base (TCP remote
/// port or IPC pid) are named in order of arrival: the first gets the
/// unsuffixed id; when a second one arrives, the first is renamed `#1`
/// and the second is `#2`; a third is `#3`.
pub proof fn law_collision_naming<S, T>(v: RegistryView<S, T>, base: IdView, peer: PeerView, a: S, b: S)
    requires
        v.consistent(),
        v.can_allocate(base),
        !v.servers[origin_server(base)].bases.contains_key(origin_key(base)),
    ensures
        ({
            let p = origin_server(base);
            let (v1, id1, ren1) = v.allocation(base);
            let w1 = v1.with_stream(accepted_stream(id1, p, peer, a));
            let (v2, id2, ren2) = w1.allocation(base);
            let w2 = v2.with_stream(accepted_stream(id2, p, peer, b));
            let (v3, id3, ren3) = w2.allocation(base);
            &&& id1 == base
            &&& ren1 is None
            &&& id2 == with_disambig(base, Some(2))
            &&& ren2 == Some((with_disambig(base, Some(1)), base))
            &&& w2.streams.contains_key(with_disambig(base, Some(1)))
            &&& !w2.streams.contains_key(base)
            &&& w2.streams.contains_key(id2)
            &&& id3 == with_disambig(base, Some(3))
            &&& ren3 is None
        }),
{
    let p = origin_server(base);
    let key = origin_key(base);
    let (v1, id1, ren1) = v.allocation(base);
    assert(v1.servers[p].bases[key] is None);
    let w1 = v1.with_stream(accepted_stream(id1, p, peer, a));
    assert(w1.servers.contains_key(p));
    assert(w1.servers[p].bases == v1.servers[p].bases);
    assert(w1.streams.contains_key(base));
    let (v2, id2, ren2) = w1.allocation(base);
    let first = with_disambig(base, Some(1));
    let r = w1.renamed(base, first);
    assert(r.servers.contains_key(p));
    assert(r.servers[p].bases == w1.servers[p].bases);
    assert(v2.servers[p].bases[key] == Some(3u32));
    let w2 = v2.with_stream(accepted_stream(id2, p, peer, b));
    assert(w2.servers[p].bases == v2.servers[p].bases);
    assert(r.streams.contains_key(first));
    assert(first != id2);
    assert(base != id2);
    assert(!r.streams.contains_key(base));
}

/// When a collision renames the first connection of a base, the
/// connection keeps its label, and the label names its new id.
pub proof fn law_rename_keeps_label<S, T>(v: RegistryView<S, T>, base: IdView)
    requires
        v.consistent(),
        v.can_allocate(base),
        v.servers[origin_server(base)].bases.contains_key(origin_key(base)),
        v.servers[origin_server(base)].bases[origin_key(base)] is None,
        v.streams.contains_key(base),
    ensures
        ({
            let first = with_disambig(base, Some(1));
            let (w, id, ren) = v.allocation(base);
            &&& ren == Some((first, base))
            &&& w.streams.contains_key(first)
            &&& !w.streams.contains_key(base)
            &&& w.label_of(first) == v.label_of(base)
            &&& (v.label_of(base) matches Some(n) ==> w.labels.contains_key(n) && w.labels[n] == first)
        }),
{
    let p = origin_server(base);
    let key = origin_key(base);
    let first = with_disambig(base, Some(1));
    let r = v.renamed(base, first);
    assert(r.streams.contains_key(first));
    assert(!r.servers.contains_key(first)) by {
        assert(!first.is_server());
        assert(!v.servers.contains_key(first));
    }
}

// ---------------------------------------------------------------------
// Labels and names
// ---------------------------------------------------------------------

/// A label names its id: once `id` is labeled `name`, the name resolves
/// to the id and the id is shown under the name.
pub proof fn law_label_names_id<S, T>(v: RegistryView<S, T>, id: IdView, name: Seq<char>)
    requires
        v.consistent(),
        v.label_error(id, name) is None,
    ensures
        v.labeled(id, name).resolves(name, id),
        v.labeled(id, name).display_name(id) == name,
{
}

/// Labels are one to one: two names never label the same id, and each
/// label names a registered id that carries it.
pub proof fn law_labels_one_to_one<S, T>(v: RegistryView<S, T>, n1: Seq<char>, n2: Seq<char>)
    requires
        v.consistent(),
        v.labels.contains_key(n1),
        v.labels.contains_key(n2),
    ensures
        v.labels[n1] == v.labels[n2] ==> n1 == n2,
        v.is_registered(v.labels[n1]),
        v.label_of(v.labels[n1]) == Some(n1),
{
}

/// Every registered id can be named by the text it is shown as.
pub proof fn law_registered_ids_resolvable<S, T>(v: RegistryView<S, T>, id: IdView)
    requires
        v.is_registered(id),
    ensures
        v.resolvable(id.text()),
{
    assert(v.text_match(id.text(), id));
}

/// Closing a stream frees its id and its label: neither names anything
/// afterwards.
pub proof fn law_close_stream_frees<S, T>(v: RegistryView<S, T>, id: IdView)
    requires
        v.consistent(),
        v.streams.contains_key(id),
    ensures
        ({
            let w = v.without_streams(set![id]);
            &&& !w.streams.contains_key(id)
            &&& forall|n: Seq<char>| #[trigger] w.labels.contains_key(n) ==> w.labels[n] != id
            &&& (v.label_of(id) matches Some(n) ==> !w.labels.contains_key(n))
        }),
{
    assert(!v.servers.contains_key(id));
    assert(v.is_registered(id));
    if v.label_of(id) is Some {
        let n = v.label_of(id)->0;
        assert(v.labels[n] == id);
    }
}

/// Closing a server closes every connection it accepted: afterwards
/// neither the server nor any of its children is registered, no stream
/// has it as parent, and the labels of all of them are free.
pub proof fn law_close_server_cascades<S, T>(v: RegistryView<S, T>, id: IdView)
    requires
        v.consistent(),
        v.servers.contains_key(id),
    ensures
        ({
            let w = v.without_server(id);
            &&& !w.servers.contains_key(id)
            &&& forall|c: IdView| #[trigger] v.servers[id].children.contains(c) ==> !w.streams.contains_key(c)
            &&& forall|c: IdView| #[trigger] w.streams.contains_key(c) ==> w.streams[c].parent != Some(id)
            &&& forall|n: Seq<char>| #[trigger] w.labels.contains_key(n) ==> w.labels[n] != id && !v.servers[id].children.contains(w.labels[n])
        }),
{
    let w = v.without_server(id);
    assert forall|c: IdView| #[trigger] w.streams.contains_key(c) implies w.streams[c].parent != Some(id) by {
        if v.streams[c].parent == Some(id) {
            assert(v.servers[id].children.contains(c));
        }
    }
    assert forall|n: Seq<char>| #[trigger] w.labels.contains_key(n) implies w.labels[n] != id && !v.servers[id].children.contains(w.labels[n]) by {
        if w.labels[n] == id {
            assert(v.label_of(id) == Some(n));
        }
    }
}

// ---------------------------------------------------------------------
// Shown ids read back
// ---------------------------------------------------------------------

/// The text of a TCP client id or an accepted TCP id reads back, through
/// the token parser, as that very id.
pub proof fn law_token_reads_back_text(id: IdView)
    requires
        id is TcpClient || id is AcceptedTcp,
    ensures
        token_id(id.text()) == Some(id),
{
    match id {
        IdView::TcpClient { local_port } => {
            lemma_parse_dec_text(local_port as nat);
        },
        IdView::AcceptedTcp { parent_port, remote_port, disambig } => {
            let dp = dec_text(parent_port as nat);
            let dr = dec_text(remote_port as nat);
            lemma_dec_text(parent_port as nat);
            lemma_dec_text(remote_port as nat);
            lemma_parse_dec_text(parent_port as nat);
            lemma_parse_dec_text(remote_port as nat);
            let t = id.text();
            let i0 = dp.len() as int;
            let core = dp + seq!['.'] + dr;
            assert(t == core + suffix_text(disambig));
            assert(t[i0] == '.');
            assert(!is_digit('.'));
            lemma_parse_needs_digits(t, i0);
            assert(forall|j: int| 0 <= j < dp.len() ==> is_digit(#[trigger] dp[j]));
            assert(forall|j: int| 0 <= j < dr.len() ==> is_digit(#[trigger] dr[j]));
            assert forall|j: int| 0 <= j < core.len() && j != i0 implies is_digit(#[trigger] core[j]) by {
                if j < i0 {
                    assert(core[j] == dp[j]);
                } else {
                    assert(core[j] == dr[j - i0 - 1]);
                }
            }
            assert(core.take(i0) =~= dp);
            assert(core.skip(i0 + 1) =~= dr);
            assert(t.contains('.')) by {
                assert(t[i0] == '.');
            }
            match disambig {
                Some(n) => {
                    let dn = dec_text(n as nat);
                    lemma_dec_text(n as nat);
                    lemma_parse_dec_text(n as nat);
                    let h = core.len() as int;
                    assert(t == core + seq!['#'] + dn);
                    assert(t[h] == '#');
                    assert forall|j: int| 0 <= j < h implies t[j] != '#' by {
                        assert(t[j] == core[j]);
                        if j != i0 {
                            assert(is_digit(core[j]));
                        }
                    }
                    lemma_first_index_at(t, '#', h);
                    assert(t.contains('#')) by {
                        assert(t[h] == '#');
                    }
                    let left = t.take(h);
                    assert(left =~= core);
                    assert(t.skip(h + 1) =~= dn);
                    assert forall|j: int| 0 <= j < i0 implies left[j] != '.' by {
                        assert(is_digit(core[j]));
                    }
                    lemma_first_index_at(left, '.', i0);
                    assert(hash_form(t) == Some(id));
                },
                None => {
                    assert(t =~= core);
                    assert(!t.contains('#')) by {
                        assert forall|j: int| 0 <= j < t.len() implies t[j] != '#' by {
                            if j != i0 {
                                assert(is_digit(core[j]));
                            }
                        }
                    }
                    assert forall|j: int| i0 < j < t.len() implies t[j] != '.' by {
                        assert(is_digit(core[j]));
                    }
                    lemma_last_index_at(t, '.', i0);
                    assert(dot_form(t) == Some(id));
                },
            }
        },
        _ => {},
    }
}

/// A connection is addressed by its shown id: a registered TCP client or
/// accepted TCP connection whose text no label takes resolves, from that
/// text, to itself.
pub proof fn law_shown_id_resolves<S, T>(v: RegistryView<S, T>, id: IdView)
    requires
        v.is_registered(id),
        id is TcpClient || id is AcceptedTcp,
        !v.labels.contains_key(id.text()),
    ensures
        v.resolves(id.text(), id),
{
    law_token_reads_back_text(id);
}

/// Any registered id is addressed by its shown text, unless a label
/// takes that text, the text reads as another registered id, or a
/// registered id of a kind ranked before it is written the same.
pub proof fn law_shown_text_resolves<S, T>(v: RegistryView<S, T>, id: IdView)
    requires
        v.is_registered(id),
        !v.labels.contains_key(id.text()),
        token_id(id.text()) is Some && v.is_registered(token_id(id.text())->0) ==> token_id(id.text())->0 == id,
        forall|o: IdView| #[trigger] v.text_match(id.text(), o) ==> kind_rank(id) <= kind_rank(o),
    ensures
        v.resolves(id.text(), id),
{
}

// ---------------------------------------------------------------------
// Hex payloads
// ---------------------------------------------------------------------

proof fn lemma_upper_hex_char(d: nat)
    requires
        d < 16,
    ensures
        is_hex_digit(upper_hex_char(d)),
        hex_value(upper_hex_char(d)) == d,
        !is_sep(upper_hex_char(d)),
{
    if d < 10 {
        assert(((d + 48) as char) as u32 == d + 48);
    } else {
        assert(((d + 55) as char) as u32 == d + 55);
    }
}

/// The two characters of a pair, after `s`, make one more token.
proof fn lemma_tokens_push_pair(s: Seq<char>, b: u8, spaced: bool)
    requires
        spaced ==> s.len() > 0 && is_sep(s.last()),
        !spaced ==> s.len() == 0,
    ensures
        tokens_of(s + hex_pair(b)) == tokens_of(s).push(hex_pair(b)),
{
    let c1 = upper_hex_char((b / 16) as nat);
    let c2 = upper_hex_char((b % 16) as nat);
    lemma_upper_hex_char((b / 16) as nat);
    lemma_upper_hex_char((b % 16) as nat);
    let t1 = s.push(c1);
    let t2 = t1.push(c2);
    assert(s + hex_pair(b) =~= t2);
    assert(t2.drop_last() =~= t1);
    assert(t1.drop_last() =~= s);
    assert(tokens_of(t1) == tokens_of(s).push(seq![c1]));
    assert(t2[t2.len() - 2] == c1);
    assert(tokens_of(t1).drop_last() =~= tokens_of(s));
    assert(seq![c1].push(c2) =~= hex_pair(b));
}

/// The tokens of formatted bytes are their hex pairs.
proof fn lemma_tokens_of_format(bs: Seq<u8>)
    ensures
        tokens_of(format_hex_spec(bs)) == bs.map_values(|b: u8| hex_pair(b)),
    decreases bs.len(),
{
    let pairs = bs.map_values(|b: u8| hex_pair(b));
    if bs.len() == 0 {
        assert(pairs =~= Seq::<Seq<char>>::empty());
    } else if bs.len() == 1 {
        lemma_tokens_push_pair(Seq::empty(), bs[0], false);
        assert(Seq::<char>::empty() + hex_pair(bs[0]) =~= hex_pair(bs[0]));
        assert(tokens_of(Seq::<char>::empty()) =~= Seq::<Seq<char>>::empty());
        assert(pairs =~= seq![hex_pair(bs[0])]);
    } else {
        let front = format_hex_spec(bs.drop_last());
        lemma_tokens_of_format(bs.drop_last());
        let sp = front.push(' ');
        assert(sp.drop_last() =~= front);
        assert(tokens_of(sp) == tokens_of(front));
        lemma_tokens_push_pair(sp, bs.last(), true);
        assert(front + seq![' '] + hex_pair(bs.last()) =~= sp + hex_pair(bs.last()));
        assert(pairs =~= bs.drop_last().map_values(|b: u8| hex_pair(b)).push(hex_pair(bs.last())));
    }
}

/// The digits of the pairs of `bs`.
pub open spec fn pair_digits(bs: Seq<u8>) -> Seq<char> {
    joined(bs.map_values(|b: u8| hex_pair(b)))
}

/// The digits of the pairs of `bs`, in order: two per byte.
proof fn lemma_pair_digits(bs: Seq<u8>)
    ensures
        pair_digits(bs).len() == 2 * bs.len(),
        forall|i: int| 0 <= i < bs.len() ==> #[trigger] pair_digits(bs)[2 * i] == upper_hex_char((bs[i] / 16) as nat),
        forall|i: int| 0 <= i < bs.len() ==> #[trigger] pair_digits(bs)[2 * i + 1] == upper_hex_char((bs[i] % 16) as nat),
    decreases bs.len(),
{
    let pairs = bs.map_values(|b: u8| hex_pair(b));
    if bs.len() > 0 {
        let front = bs.drop_last();
        lemma_pair_digits(front);
        assert(pairs.drop_last() =~= front.map_values(|b: u8| hex_pair(b)));
        let jf = pair_digits(front);
        let j = pair_digits(bs);
        assert(j == jf + hex_pair(bs.last()));
        assert(j.len() == jf.len() + 2);
        assert forall|i: int| 0 <= i < bs.len() implies j[2 * i] == upper_hex_char((bs[i] / 16) as nat)
            && j[2 * i + 1] == upper_hex_char((bs[i] % 16) as nat) by {
            if i < bs.len() - 1 {
                assert(front[i] == bs[i]);
                assert(jf[2 * i] == upper_hex_char((front[i] / 16) as nat));
                assert(jf[2 * i + 1] == upper_hex_char((front[i] % 16) as nat));
                assert(j[2 * i] == jf[2 * i]);
                assert(j[2 * i + 1] == jf[2 * i + 1]);
            } else {
                assert(bs[i] == bs.last());
                assert(2 * i == jf.len());
                assert(j[2 * i] == hex_pair(bs.last())[0]);
                assert(j[2 * i + 1] == hex_pair(bs.last())[1]);
            }
        }
        assert forall|i: int| 0 <= i < bs.len() implies #[trigger] pair_digits(bs)[2 * i] == upper_hex_char((bs[i] / 16) as nat) by {
            assert(j[2 * i] == upper_hex_char((bs[i] / 16) as nat));
        }
        assert forall|i: int| 0 <= i < bs.len() implies #[trigger] pair_digits(bs)[2 * i + 1] == upper_hex_char((bs[i] % 16) as nat) by {
            assert(j[2 * i + 1] == upper_hex_char((bs[i] % 16) as nat));
        }
    } else {
        assert(pairs =~= Seq::<Seq<char>>::empty());
    }
}

/// Every character of the pairs of `bs` is a hex digit.
proof fn lemma_pair_digits_hex(bs: Seq<u8>)
    ensures
        first_non_hex(pair_digits(bs)) is None,
{
    lemma_pair_digits(bs);
    let j = pair_digits(bs);
    assert forall|k: int| 0 <= k < j.len() implies is_hex_digit(#[trigger] j[k]) by {
        let i = k / 2;
        assert(0 <= i < bs.len());
        lemma_upper_hex_char((bs[i] / 16) as nat);
        lemma_upper_hex_char((bs[i] % 16) as nat);
        assert(j[2 * i] == upper_hex_char((bs[i] / 16) as nat));
        if k % 2 == 0 {
            assert(k == 2 * i);
        } else {
            assert(k == 2 * i + 1);
        }
    }
}

/// The pairs of `bs` decode to `bs`.
proof fn lemma_pair_digits_decode(bs: Seq<u8>)
    ensures
        hex_bytes(pair_digits(bs)) == bs,
{
    lemma_pair_digits(bs);
    let j = pair_digits(bs);
    assert forall|i: int| 0 <= i < bs.len() implies #[trigger] hex_bytes(j)[i] == bs[i] by {
        lemma_upper_hex_char((bs[i] / 16) as nat);
        lemma_upper_hex_char((bs[i] % 16) as nat);
        assert(j[2 * i] == upper_hex_char((bs[i] / 16) as nat));
    }
    assert(hex_bytes(j) =~= bs);
}

/// Hex payloads round-trip: the tokens of the text that `RECV` shows a
/// non-empty payload with parse back to the same bytes.
pub proof fn law_hex_roundtrip(bytes: Seq<u8>)
    requires
        bytes.len() > 0,
    ensures
        parse_hex_spec(tokens_of(format_hex_spec(bytes))) == Ok::<Seq<u8>, crate::error::DomainErrorView>(bytes),
{
    lemma_tokens_of_format(bytes);
    lemma_pair_digits(bytes);
    lemma_pair_digits_hex(bytes);
    lemma_pair_digits_decode(bytes);
}

/// A lower-case hex letter in upper case; any other character as it is.
pub open spec fn hex_upper(c: char) -> char {
    if 97 <= (c as u32) && (c as u32) <= 102 {
        ((c as u32) - 32) as char
    } else {
        c
    }
}

/// Tokens with their hex letters in upper case.
pub open spec fn upper_tokens(t: Seq<Seq<char>>) -> Seq<Seq<char>> {
    t.map_values(|s: Seq<char>| s.map_values(|c: char| hex_upper(c)))
}

proof fn lemma_hex_upper(c: char)
    ensures
        is_hex_digit(hex_upper(c)) == is_hex_digit(c),
        is_hex_digit(c) ==> hex_value(hex_upper(c)) == hex_value(c),
        !is_hex_digit(c) ==> hex_upper(c) == c,
{
    if 97 <= (c as u32) && (c as u32) <= 102 {
        assert((((c as u32) - 32) as char) as u32 == (c as u32) - 32);
    }
}

proof fn lemma_joined_upper(t: Seq<Seq<char>>)
    ensures
        joined(upper_tokens(t)) == joined(t).map_values(|c: char| hex_upper(c)),
    decreases t.len(),
{
    if t.len() == 0 {
        assert(joined(upper_tokens(t)) =~= joined(t).map_values(|c: char| hex_upper(c)));
    } else {
        lemma_joined_upper(t.drop_last());
        assert(upper_tokens(t).drop_last() =~= upper_tokens(t.drop_last()));
        assert(joined(upper_tokens(t)) == joined(upper_tokens(t.drop_last())) + upper_tokens(t).last());
        assert(joined(t) == joined(t.drop_last()) + t.last());
        assert(joined(upper_tokens(t)) =~= joined(t).map_values(|c: char| hex_upper(c)));
    }
}

/// The first non-hex character, when there is one, is a non-hex
/// character with only hex digits before it.
proof fn lemma_first_non_hex_is_first(s: Seq<char>)
    ensures
        first_non_hex(s) matches Some(p) ==> 0 <= p < s.len() && !is_hex_digit(s[p]) && forall|k: int|
            0 <= k < p ==> is_hex_digit(#[trigger] s[k]),
        first_non_hex(s) is None ==> forall|k: int| 0 <= k < s.len() ==> is_hex_digit(#[trigger] s[k]),
    decreases s.len(),
{
    if s.len() > 0 {
        let f = s.drop_last();
        lemma_first_non_hex_is_first(f);
        if first_non_hex(f) is Some {
            let p = first_non_hex(f)->0;
            assert forall|k: int| 0 <= k < p implies is_hex_digit(#[trigger] s[k]) by {
                assert(s[k] == f[k]);
            }
            assert(!is_hex_digit(s[p]));
        } else if !is_hex_digit(s.last()) {
            let p = s.len() - 1;
            assert forall|k: int| 0 <= k < p implies is_hex_digit(#[trigger] s[k]) by {
                assert(s[k] == f[k]);
            }
            assert(!is_hex_digit(s[p]));
        } else {
            assert forall|k: int| 0 <= k < s.len() implies is_hex_digit(#[trigger] s[k]) by {
                if k < s.len() - 1 {
                    assert(s[k] == f[k]);
                }
            }
        }
    }
}

/// Hex payloads are case-insensitive: writing the hex letters of the
/// tokens in upper case changes nothing of what they parse to, error
/// included.
pub proof fn law_hex_case_insensitive(tokens: Seq<Seq<char>>)
    ensures
        parse_hex_spec(upper_tokens(tokens)) == parse_hex_spec(tokens),
{
    lemma_joined_upper(tokens);
    let j = joined(tokens);
    let u = joined(upper_tokens(tokens));
    assert(u.len() == j.len());
    assert forall|i: int| 0 <= i < j.len() implies #[trigger] is_hex_digit(u[i]) == is_hex_digit(j[i]) && (
    is_hex_digit(j[i]) ==> hex_value(u[i]) == hex_value(j[i])) && (!is_hex_digit(j[i]) ==> u[i] == j[i]) by {
        lemma_hex_upper(j[i]);
    }
    lemma_first_non_hex_is_first(j);
    lemma_first_non_hex_is_first(u);
    if first_non_hex(j) is Some {
        let p = first_non_hex(j)->0;
        assert(is_hex_digit(u[p]) == is_hex_digit(j[p]));
        assert(forall|k: int| 0 <= k < p ==> is_hex_digit(u[k]) == is_hex_digit(j[k]));
        assert(first_non_hex(u) is Some);
        let q = first_non_hex(u)->0;
        assert(is_hex_digit(u[q]) == is_hex_digit(j[q]));
        if q < p {
            assert(is_hex_digit(j[q]));
        } else if q > p {
            assert(is_hex_digit(u[p]));
        }
        assert(u[p] == j[p]);
    } else {
        if first_non_hex(u) is Some {
            let q = first_non_hex(u)->0;
            assert(is_hex_digit(u[q]) == is_hex_digit(j[q]));
        }
        assert(first_non_hex(u) is None);
        assert(upper_tokens(tokens).len() == tokens.len());
        if j.len() > 0 && j.len() % 2 == 0 {
            assert forall|i: int| 0 <= i < j.len() / 2 implies #[trigger] hex_bytes(u)[i] == hex_bytes(j)[i] by {
                assert(is_hex_digit(j[2 * i]) && is_hex_digit(j[2 * i + 1]));
                assert(hex_value(u[2 * i]) == hex_value(j[2 * i]));
                assert(hex_value(u[2 * i + 1]) == hex_value(j[2 * i + 1]));
            }
            assert(hex_bytes(u) =~= hex_bytes(j));
        }
    }
}

/// ASCII upper case, as `char::to_ascii_uppercase`.
pub open spec fn ascii_upper(c: char) -> char {
    if 97 <= (c as u32) && (c as u32) <= 122 {
        ((c as u32) - 32) as char
    } else {
        c
    }
}

/// ASCII lower case, as `char::to_ascii_lowercase`.
pub open spec fn ascii_lower(c: char) -> char {
    if 65 <= (c as u32) && (c as u32) <= 90 {
        ((c as u32) + 32) as char
    } else {
        c
    }
}

/// Tokens with every character mapped by `f`.
pub open spec fn map_tokens(t: Seq<Seq<char>>, f: spec_fn(char) -> char) -> Seq<Seq<char>> {
    t.map_values(|s: Seq<char>| s.map_values(f))
}

proof fn lemma_joined_map(t: Seq<Seq<char>>, f: spec_fn(char) -> char)
    ensures
        joined(map_tokens(t, f)) == joined(t).map_values(f),
    decreases t.len(),
{
    if t.len() == 0 {
        assert(joined(map_tokens(t, f)) =~= joined(t).map_values(f));
    } else {
        lemma_joined_map(t.drop_last(), f);
        assert(map_tokens(t, f).drop_last() =~= map_tokens(t.drop_last(), f));
        assert(joined(map_tokens(t, f)) == joined(map_tokens(t.drop_last(), f)) + map_tokens(t, f).last());
        assert(joined(t) == joined(t.drop_last()) + t.last());
        assert(joined(map_tokens(t, f)) =~= joined(t).map_values(f));
    }
}

/// A character map that keeps hex digits hex digits of the same value,
/// and other characters non-hex, leaves the outcome of a parse (success
/// and bytes) unchanged.
proof fn lemma_parse_under_map(tokens: Seq<Seq<char>>, f: spec_fn(char) -> char)
    requires
        forall|c: char| #[trigger] is_hex_digit(f(c)) == is_hex_digit(c),
        forall|c: char| is_hex_digit(c) ==> hex_value(#[trigger] f(c)) == hex_value(c),
    ensures
        (parse_hex_spec(map_tokens(tokens, f)) is Ok) == (parse_hex_spec(tokens) is Ok),
        parse_hex_spec(tokens) is Ok ==> parse_hex_spec(map_tokens(tokens, f)) == parse_hex_spec(tokens),
{
    lemma_joined_map(tokens, f);
    let j = joined(tokens);
    let u = joined(map_tokens(tokens, f));
    assert(u.len() == j.len());
    assert(map_tokens(tokens, f).len() == tokens.len());
    assert forall|i: int| 0 <= i < j.len() implies #[trigger] is_hex_digit(u[i]) == is_hex_digit(j[i]) && (
    is_hex_digit(j[i]) ==> hex_value(u[i]) == hex_value(j[i])) by {
        assert(u[i] == f(j[i]));
    }
    lemma_first_non_hex_is_first(j);
    lemma_first_non_hex_is_first(u);
    if first_non_hex(j) is Some {
        let p = first_non_hex(j)->0;
        assert(is_hex_digit(u[p]) == is_hex_digit(j[p]));
        if first_non_hex(u) is None {
            assert(is_hex_digit(u[p]));
        }
    } else {
        if first_non_hex(u) is Some {
            let q = first_non_hex(u)->0;
            assert(is_hex_digit(u[q]) == is_hex_digit(j[q]));
        }
        if j.len() > 0 && j.len() % 2 == 0 {
            assert forall|i: int| 0 <= i < j.len() / 2 implies #[trigger] hex_bytes(u)[i] == hex_bytes(j)[i] by {
                assert(is_hex_digit(j[2 * i]) && is_hex_digit(j[2 * i + 1]));
                assert(hex_value(u[2 * i]) == hex_value(j[2 * i]));
                assert(hex_value(u[2 * i + 1]) == hex_value(j[2 * i + 1]));
            }
            assert(hex_bytes(u) =~= hex_bytes(j));
        }
    }
}

proof fn lemma_ascii_case_maps()
    ensures
        forall|c: char| #[trigger] is_hex_digit(ascii_upper(c)) == is_hex_digit(c),
        forall|c: char| is_hex_digit(c) ==> hex_value(#[trigger] ascii_upper(c)) == hex_value(c),
        forall|c: char| #[trigger] is_hex_digit(ascii_lower(c)) == is_hex_digit(c),
        forall|c: char| is_hex_digit(c) ==> hex_value(#[trigger] ascii_lower(c)) == hex_value(c),
{
    assert forall|c: char| #[trigger] is_hex_digit(ascii_upper(c)) == is_hex_digit(c) && (is_hex_digit(c)
        ==> hex_value(ascii_upper(c)) == hex_value(c)) by {
        if 97 <= (c as u32) && (c as u32) <= 122 {
            assert((((c as u32) - 32) as char) as u32 == (c as u32) - 32);
        }
    }
    assert forall|c: char| #[trigger] is_hex_digit(ascii_lower(c)) == is_hex_digit(c) && (is_hex_digit(c)
        ==> hex_value(ascii_lower(c)) == hex_value(c)) by {
        if 65 <= (c as u32) && (c as u32) <= 90 {
            assert((((c as u32) + 32) as char) as u32 == (c as u32) + 32);
        }
    }
}

/// Hex payloads are case-insensitive: the tokens in ASCII lower case and
/// the same tokens in ASCII upper case both parse to the same bytes, or
/// are both refused.
pub proof fn law_hex_any_case(tokens: Seq<Seq<char>>)
    ensures
        ({
            let lo = parse_hex_spec(map_tokens(tokens, |c: char| ascii_lower(c)));
            let up = parse_hex_spec(map_tokens(tokens, |c: char| ascii_upper(c)));
            ||| lo is Ok && up is Ok && lo == up
            ||| lo is Err && up is Err
        }),
{
    lemma_ascii_case_maps();
    let fl = |c: char| ascii_lower(c);
    let fu = |c: char| ascii_upper(c);
    lemma_parse_under_map(tokens, fl);
    lemma_parse_under_map(tokens, fu);
}

// ---------------------------------------------------------------------
// Relabeling, log levels
// ---------------------------------------------------------------------

/// Labeling an id with the label it already has is no conflict: it is
/// accepted and changes nothing.
pub proof fn law_relabel_same_name<S, T>(v: RegistryView<S, T>, id: IdView, name: Seq<char>)
    requires
        v.consistent(),
        v.labels.contains_key(name),
        v.labels[name] == id,
    ensures
        v.label_error(id, name) is None,
        v.labeled(id, name) == v,
{
    assert(v.is_registered(id));
    assert(v.label_of(id) == Some(name));
    let w = v.labeled(id, name);
    assert(w.labels =~= v.labels);
    if v.streams.contains_key(id) {
        assert(w.streams =~= v.streams);
        assert(w.servers =~= v.servers);
    } else {
        assert(w.streams =~= v.streams);
        assert(w.servers =~= v.servers);
    }
}

/// The documented level names, least severe first.
pub open spec fn level_names() -> Seq<Seq<char>> {
    seq!["trace"@, "info"@, "warn"@, "error"@]
}

/// `--log-level=<name>` sets the level to the position of `name` among
/// the documented names (trace 0, info 1, warn 2, error 3), whatever came
/// before it, and keeps the help request; with no argument the level is
/// that of `info`.
pub proof fn law_log_levels(argv: Seq<Seq<char>>, i: int)
    requires
        0 <= i < 4,
        cli_spec(argv) is Ok,
    ensures
        cli_spec(argv.push("--log-level="@ + level_names()[i])) == Ok::<(u8, bool), CliErrorView>(
            (i as u8, cli_spec(argv)->Ok_0.1),
        ),
        cli_spec(Seq::empty()) == Ok::<(u8, bool), CliErrorView>((1u8, false)),
        level_names()[1] == "info"@,
{
    reveal_strlit("--log-level=");
    reveal_strlit("--help");
    reveal_strlit("-h");
    reveal_strlit("trace");
    reveal_strlit("info");
    reveal_strlit("warn");
    reveal_strlit("error");
    let name = level_names()[i];
    let a = "--log-level="@ + name;
    let t = argv.push(a);
    assert(t.drop_last() =~= argv);
    assert(t.last() == a);
    assert(a.take(level_flag().len() as int) =~= level_flag());
    assert(a.skip(level_flag().len() as int) =~= name);
    assert(a != "--help"@) by {
        assert(a[2] == 'l');
        assert("--help"@[2] == 'h');
    }
    assert(a != "-h"@) by {
        assert(a.len() != "-h"@.len());
    }
    if i == 0 {
        assert(name == "trace"@);
    } else if i == 1 {
        assert(name == "info"@);
        assert(name[0] == 'i' && "trace"@[0] == 't');
        assert(name != "trace"@);
    } else if i == 2 {
        assert(name[0] == 'w' && "trace"@[0] == 't' && "info"@[0] == 'i');
        assert(name != "trace"@ && name != "info"@);
    } else {
        assert(name[0] == 'e' && "trace"@[0] == 't' && "info"@[0] == 'i' && "warn"@[0] == 'w');
        assert(name != "trace"@ && name != "info"@ && name != "warn"@);
    }
}

// ---------------------------------------------------------------------
// Broadcast failures
// ---------------------------------------------------------------------

/// The positions of the failed writes, in increasing order.
pub open spec fn failed_positions(errs: Seq<Option<crate::error::DomainErrorView>>) -> Seq<int>
    decreases errs.len(),
{
    if errs.len() == 0 {
        Seq::empty()
    } else {
        let front = failed_positions(errs.drop_last());
        if errs.last() is Some {
            front.push(errs.len() - 1)
        } else {
            front
        }
    }
}

/// `failed_positions` lists exactly the failed writes, in increasing
/// order.
pub proof fn lemma_failed_positions(errs: Seq<Option<crate::error::DomainErrorView>>)
    ensures
        forall|k: int| 0 <= k < failed_positions(errs).len() ==> {
            &&& 0 <= #[trigger] failed_positions(errs)[k] < errs.len()
            &&& errs[failed_positions(errs)[k]] is Some
        },
        forall|a: int, b: int| 0 <= a < b < failed_positions(errs).len() ==> failed_positions(errs)[a]
            < failed_positions(errs)[b],
        forall|x: int| 0 <= x < errs.len() && (#[trigger] errs[x]) is Some ==> failed_positions(errs).contains(x),
    decreases errs.len(),
{
    if errs.len() > 0 {
        let f = errs.drop_last();
        lemma_failed_positions(f);
        let pf = failed_positions(f);
        assert forall|x: int| 0 <= x < errs.len() && (#[trigger] errs[x]) is Some implies failed_positions(errs).contains(x) by {
            if x < errs.len() - 1 {
                assert(f[x] == errs[x]);
                let k = choose|k: int| 0 <= k < pf.len() && pf[k] == x;
                assert(failed_positions(errs)[k] == x);
            } else {
                assert(failed_positions(errs)[pf.len() as int] == x);
            }
        }
        assert forall|k: int| 0 <= k < failed_positions(errs).len() implies {
            &&& 0 <= #[trigger] failed_positions(errs)[k] < errs.len()
            &&& errs[failed_positions(errs)[k]] is Some
        } by {
            if k < pf.len() {
                assert(f[pf[k]] == errs[pf[k]]);
            }
        }
    }
}

/// A broadcast shows one `ERROR` line per failed write, in order: there
/// are as many lines as failed writes, and the `k`-th line reports the
/// `k`-th failed target, under its shown name, with its error.
pub proof fn law_broadcast_failures<S, T>(
    v: RegistryView<S, T>,
    ids: Seq<IdView>,
    errs: Seq<Option<crate::error::DomainErrorView>>,
)
    requires
        ids.len() == errs.len(),
    ensures
        failure_lines(v, ids, errs).len() == failed_positions(errs).len(),
        forall|k: int| 0 <= k < failed_positions(errs).len() ==> #[trigger] failure_lines(v, ids, errs)[k]
            == tagged(
            v.display_name(ids[failed_positions(errs)[k]]),
            " ERROR "@ + errs[failed_positions(errs)[k]]->0.message(),
        ),
    decreases ids.len(),
{
    if ids.len() > 0 {
        let fi = ids.drop_last();
        let fe = errs.take(ids.len() - 1);
        assert(fe =~= errs.drop_last());
        law_broadcast_failures(v, fi, fe);
        let pf = failed_positions(fe);
        assert forall|k: int| 0 <= k < failed_positions(errs).len() implies #[trigger] failure_lines(v, ids, errs)[k]
            == tagged(
            v.display_name(ids[failed_positions(errs)[k]]),
            " ERROR "@ + errs[failed_positions(errs)[k]]->0.message(),
        ) by {
            lemma_failed_positions(fe);
            if k < pf.len() {
                assert(0 <= pf[k] < fe.len());
                assert(fi[pf[k]] == ids[pf[k]]);
                assert(fe[pf[k]] == errs[pf[k]]);
            }
        }
    }
}

// ---------------------------------------------------------------------
// Consecutive numbering of accepted connections
// ---------------------------------------------------------------------

/// The registry after `k` connections from `base` were accepted and
/// registered, one after the other.
pub open spec fn after_accepts<S, T>(v: RegistryView<S, T>, base: IdView, peer: PeerView, io: S, k: nat) -> RegistryView<S, T>
    decreases k,
{
    if k == 0 {
        v
    } else {
        let w = after_accepts(v, base, peer, io, (k - 1) as nat);
        let (a, id, ren) = w.allocation(base);
        a.with_stream(accepted_stream(id, origin_server(base), peer, io))
    }
}

/// The id given to the `k`-th connection accepted from `base` (`k` from 1).
pub open spec fn kth_accepted_id<S, T>(v: RegistryView<S, T>, base: IdView, peer: PeerView, io: S, k: nat) -> IdView {
    after_accepts(v, base, peer, io, (k - 1) as nat).allocation(base).1
}

proof fn lemma_after_accepts_slot<S, T>(v: RegistryView<S, T>, base: IdView, peer: PeerView, io: S, k: nat)
    requires
        v.can_allocate(base),
        !v.servers[origin_server(base)].bases.contains_key(origin_key(base)),
        1 <= k < u32::MAX,
    ensures
        ({
            let w = after_accepts(v, base, peer, io, k);
            let p = origin_server(base);
            let key = origin_key(base);
            &&& w.servers.contains_key(p)
            &&& w.servers[p].bases.contains_key(key)
            &&& w.servers[p].bases[key] == (if k == 1 { None } else { Some((k + 1) as u32) })
        }),
    decreases k,
{
    let p = origin_server(base);
    let key = origin_key(base);
    let w0 = after_accepts(v, base, peer, io, (k - 1) as nat);
    if k > 1 {
        lemma_after_accepts_slot(v, base, peer, io, (k - 1) as nat);
    }
    assert(w0.servers.contains_key(p));
    let (a, id, ren) = w0.allocation(base);
    if k == 2 {
        let r = w0.renamed(base, with_disambig(base, Some(1)));
        assert(r.servers.contains_key(p));
        assert(r.servers[p].bases == w0.servers[p].bases);
    }
    assert(a.servers.contains_key(p));
    assert(a.servers[p].bases.contains_key(key));
    let w = a.with_stream(accepted_stream(id, p, peer, io));
    assert(w.servers[p].bases == a.servers[p].bases);
}

/// Connections accepted from one base are numbered consecutively in order
/// of arrival: the first gets the unsuffixed id (renamed `#1` when the
/// second arrives), and the `k`-th, for every `k` from 2 on, gets `#k`.
pub proof fn law_consecutive_numbering<S, T>(v: RegistryView<S, T>, base: IdView, peer: PeerView, io: S, k: nat)
    requires
        v.can_allocate(base),
        !v.servers[origin_server(base)].bases.contains_key(origin_key(base)),
        1 <= k < u32::MAX,
    ensures
        kth_accepted_id(v, base, peer, io, k) == (if k == 1 {
            base
        } else {
            with_disambig(base, Some(k as u32))
        }),
{
    if k > 1 {
        lemma_after_accepts_slot(v, base, peer, io, (k - 1) as nat);
    }
}

// ---------------------------------------------------------------------
// Labels in the status listing
// ---------------------------------------------------------------------

/// `m` occurs in `s` as a contiguous segment.
pub open spec fn occurs_in(m: Seq<char>, s: Seq<char>) -> bool {
    exists|i: int| 0 <= i && i + m.len() <= s.len() && #[trigger] s.subrange(i, i + m.len()) == m
}

proof fn lemma_occurs_left(m: Seq<char>, x: Seq<char>, b: Seq<char>)
    requires
        occurs_in(m, x),
    ensures
        occurs_in(m, x + b),
{
    let i = choose|i: int| 0 <= i && i + m.len() <= x.len() && #[trigger] x.subrange(i, i + m.len()) == m;
    assert((x + b).subrange(i, i + m.len()) =~= x.subrange(i, i + m.len()));
}

proof fn lemma_occurs_right(m: Seq<char>, a: Seq<char>, x: Seq<char>)
    requires
        occurs_in(m, x),
    ensures
        occurs_in(m, a + x),
{
    let i = choose|i: int| 0 <= i && i + m.len() <= x.len() && #[trigger] x.subrange(i, i + m.len()) == m;
    assert((a + x).subrange(a.len() + i, a.len() + i + m.len()) =~= x.subrange(i, i + m.len()));
}

proof fn lemma_occurs_end(m: Seq<char>, a: Seq<char>)
    ensures
        occurs_in(m, a + m),
{
    assert((a + m).subrange(a.len() as int, a.len() + m.len() as int) =~= m);
}

/// The text a labeled line ends with.
pub open spec fn label_tail(n: Seq<char>) -> Seq<char> {
    "    label="@ + n + "\n"@
}

proof fn lemma_client_lines_label<S, T>(v: RegistryView<S, T>, order: Seq<IdView>, id: IdView, n: Seq<char>)
    requires
        order.contains(id),
        v.streams[id].state.label == Some(n),
    ensures
        occurs_in(label_tail(n), client_lines(v, order)),
    decreases order.len(),
{
    let h = v.streams[id];
    let front = client_lines(v, order.drop_last());
    if order.last() == id {
        let line = client_line(h);
        let pre = "  "@ + h.state.id.text() + " -> "@ + client_remote(h.state.peer_info) + "    ["@
            + status_tag(h.state.status) + "]"@;
        assert(line =~= pre + label_tail(n));
        lemma_occurs_end(label_tail(n), front + pre);
        assert(front + line =~= (front + pre) + label_tail(n));
    } else {
        let q = choose|q: int| 0 <= q < order.len() && order[q] == id;
        assert(order.drop_last()[q] == id);
        lemma_client_lines_label(v, order.drop_last(), id, n);
        lemma_occurs_left(label_tail(n), front, client_line(v.streams[order.last()]));
    }
}

proof fn lemma_child_lines_label<S, T>(v: RegistryView<S, T>, order: Seq<IdView>, id: IdView, n: Seq<char>)
    requires
        order.contains(id),
        v.streams[id].state.label == Some(n),
    ensures
        occurs_in(label_tail(n), child_lines(v, order)),
    decreases order.len(),
{
    let h = v.streams[id];
    let front = child_lines(v, order.drop_last());
    if order.last() == id {
        let line = child_line(h);
        let pre = "    "@ + h.state.id.text() + "    peer="@ + child_peer(h.state.peer_info) + "    ["@
            + status_tag(h.state.status) + "]"@;
        assert(line =~= pre + label_tail(n));
        lemma_occurs_end(label_tail(n), front + pre);
        assert(front + line =~= (front + pre) + label_tail(n));
    } else {
        let q = choose|q: int| 0 <= q < order.len() && order[q] == id;
        assert(order.drop_last()[q] == id);
        lemma_child_lines_label(v, order.drop_last(), id, n);
        lemma_occurs_left(label_tail(n), front, child_line(v.streams[order.last()]));
    }
}

proof fn lemma_server_blocks_label<S, T>(
    v: RegistryView<S, T>,
    order: Seq<IdView>,
    kids: Seq<Seq<IdView>>,
    i: int,
    id: IdView,
    n: Seq<char>,
)
    requires
        0 <= i < order.len(),
        kids.len() == order.len(),
        kids[i].contains(id),
        v.streams[id].state.label == Some(n),
    ensures
        occurs_in(label_tail(n), server_blocks(v, order, kids)),
    decreases order.len(),
{
    let last = order.len() - 1;
    let front = server_blocks(v, order.drop_last(), kids.drop_last());
    if i == last {
        lemma_child_lines_label(v, kids[i], id, n);
        assert(kids[i].len() > 0);
        let head = "  "@ + order.last().text() + "\n"@;
        assert(server_block(v, order.last(), kids[i]) == head + child_lines(v, kids[i]));
        lemma_occurs_right(label_tail(n), front + head, child_lines(v, kids[i]));
        assert(front + server_block(v, order.last(), kids[i]) =~= (front + head) + child_lines(v, kids[i]));
    } else {
        assert(kids.drop_last()[i] == kids[i]);
        lemma_server_blocks_label(v, order.drop_last(), kids.drop_last(), i, id, n);
        lemma_occurs_left(label_tail(n), front, server_block(v, order.last(), kids[last]));
    }
}

/// The status listing shows every label: for each labeled client or
/// accepted connection, the listing holds `    label=<label>` closing a
/// line.
pub proof fn law_status_shows_labels<S, T>(
    v: RegistryView<S, T>,
    cl: Seq<IdView>,
    sl: Seq<IdView>,
    kl: Seq<Seq<IdView>>,
    id: IdView,
    n: Seq<char>,
)
    requires
        v.consistent(),
        status_orders(v, cl, sl, kl),
        v.streams.contains_key(id),
        v.streams[id].state.label == Some(n),
    ensures
        occurs_in("    label="@ + n + "\n"@, status_text(v, cl, sl, kl)),
{
    let t = status_text(v, cl, sl, kl);
    let c = if cl.len() == 0 { "  (none)\n"@ } else { client_lines(v, cl) };
    let sv = if sl.len() == 0 { "  (none)\n"@ } else { server_blocks(v, sl, kl) };
    assert(t == "CLIENTS\n"@ + c + "\nSERVERS\n"@ + sv);
    match v.streams[id].parent {
        None => {
            assert(client_ids(v).contains(id));
            assert(cl.to_set().contains(id));
            assert(cl.contains(id));
            lemma_client_lines_label(v, cl, id, n);
            lemma_occurs_right(label_tail(n), "CLIENTS\n"@, c);
            lemma_occurs_left(label_tail(n), "CLIENTS\n"@ + c, "\nSERVERS\n"@ + sv);
            assert(t =~= ("CLIENTS\n"@ + c) + ("\nSERVERS\n"@ + sv));
        },
        Some(p) => {
            assert(v.servers.contains_key(p) && v.servers[p].children.contains(id));
            assert(sl.to_set().contains(p));
            let i = choose|i: int| 0 <= i < sl.len() && sl[i] == p;
            assert(listing(kl[i], v.servers[sl[i]].children));
            assert(kl[i].to_set().contains(id));
            assert(kl[i].contains(id));
            lemma_server_blocks_label(v, sl, kl, i, id, n);
            lemma_occurs_right(label_tail(n), "CLIENTS\n"@ + c + "\nSERVERS\n"@, sv);
        },
    }
}

} // verus!
