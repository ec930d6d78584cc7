//! Reading a user-typed token as a connection id.

use vstd::prelude::*;

use crate::id::{ConnectionId, IdView};
use crate::text::{
    contains_char, find_char, first_index, last_index, parse_u16, parse_u16_spec, parse_u32,
    parse_u32_spec, rfind_char, string_of,
};

verus! {

/// `parent.remote#N`: split at the first `#`, then the left part at its
/// first `.`.
pub open spec fn hash_form(t: Seq<char>) -> Option<IdView> {
    match first_index(t, '#') {
        Some(h) => {
            let left = t.take(h);
            let right = t.skip(h + 1);
            match first_index(left, '.') {
                Some(d) => {
                    let p = parse_u16_spec(left.take(d));
                    let r = parse_u16_spec(left.skip(d + 1));
                    let n = parse_u32_spec(right);
                    if p is Some && r is Some && n is Some {
                        Some(
                            IdView::AcceptedTcp {
                                parent_port: p->0,
                                remote_port: r->0,
                                disambig: Some(n->0),
                            },
                        )
                    } else {
                        None
                    }
                },
                None => None,
            }
        },
        None => None,
    }
}

/// `parent.remote`: split at the last `.`.
pub open spec fn dot_form(t: Seq<char>) -> Option<IdView> {
    match last_index(t, '.') {
        Some(d) => {
            let p = parse_u16_spec(t.take(d));
            let r = parse_u16_spec(t.skip(d + 1));
            if p is Some && r is Some {
                Some(IdView::AcceptedTcp { parent_port: p->0, remote_port: r->0, disambig: None })
            } else {
                None
            }
        },
        None => None,
    }
}

/// The id a token names: a port is a TCP client, `p.r#n` and `p.r` are
/// accepted TCP connections, an absolute path is an IPC client.
pub open spec fn token_id(t: Seq<char>) -> Option<IdView> {
    match parse_u16_spec(t) {
        Some(port) => Some(IdView::TcpClient { local_port: port }),
        None => if t.contains('.') && t.contains('#') && hash_form(t) is Some {
            hash_form(t)
        } else if dot_form(t) is Some {
            dot_form(t)
        } else if t.len() > 0 && t[0] == '/' {
            Some(IdView::IpcClient { local_path: t })
        } else {
            None
        },
    }
}

fn hash_form_exec(token: &str) -> (r: Option<ConnectionId>)
    ensures
        match r {
            Some(id) => hash_form(token@) == Some(id@),
            None => hash_form(token@) is None,
        },
{
    let h = match find_char(token, '#') {
        Some(h) => h,
        None => return None,
    };
    let n = token.unicode_len();
    let left = token.substring_char(0, h);
    let right = token.substring_char(h + 1, n);
    assert(left@ =~= token@.take(h as int));
    assert(right@ =~= token@.skip(h as int + 1));
    let d = match find_char(left, '.') {
        Some(d) => d,
        None => return None,
    };
    let m = left.unicode_len();
    let p = left.substring_char(0, d);
    let q = left.substring_char(d + 1, m);
    assert(p@ =~= left@.take(d as int));
    assert(q@ =~= left@.skip(d as int + 1));
    match (parse_u16(p), parse_u16(q), parse_u32(right)) {
        (Some(pp), Some(rp), Some(k)) => Some(
            ConnectionId::AcceptedTcp { parent_port: pp, remote_port: rp, disambig: Some(k) },
        ),
        _ => None,
    }
}

fn dot_form_exec(token: &str) -> (r: Option<ConnectionId>)
    ensures
        match r {
            Some(id) => dot_form(token@) == Some(id@),
            None => dot_form(token@) is None,
        },
{
    let d = match rfind_char(token, '.') {
        Some(d) => d,
        None => return None,
    };
    let n = token.unicode_len();
    let p = token.substring_char(0, d);
    let q = token.substring_char(d + 1, n);
    assert(p@ =~= token@.take(d as int));
    assert(q@ =~= token@.skip(d as int + 1));
    match (parse_u16(p), parse_u16(q)) {
        (Some(pp), Some(rp)) => Some(
            ConnectionId::AcceptedTcp { parent_port: pp, remote_port: rp, disambig: None },
        ),
        _ => None,
    }
}

/// Parse a token as an id: a `u16` is a TCP client port, `p.r#n` and
/// `p.r` are accepted TCP connections, a path starting with `/` is an IPC
/// client.
pub fn default_token_parser(token: &str) -> (r: Option<ConnectionId>)
    ensures
        match r {
            Some(id) => token_id(token@) == Some(id@),
            None => token_id(token@) is None,
        },
{
    match parse_u16(token) {
        Some(port) => return Some(ConnectionId::TcpClient { local_port: port }),
        None => {},
    }
    if contains_char(token, '.') && contains_char(token, '#') {
        match hash_form_exec(token) {
            Some(id) => return Some(id),
            None => {},
        }
    }
    match dot_form_exec(token) {
        Some(id) => return Some(id),
        None => {},
    }
    if token.unicode_len() > 0 && token.get_char(0) == '/' {
        return Some(ConnectionId::IpcClient { local_path: string_of(token) });
    }
    None
}

} // verus!
