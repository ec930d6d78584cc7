//! Line parser: raw REPL string -> `Command`.
//!
//! Only this module and `args` construct commands from strings; everything
//! else works on typed values.

use vstd::prelude::*;

use crate::command::{Command, CommandView};
use crate::error::{DomainError, DomainErrorView};
use crate::hex::{parse_hex_spec, parse_hex_tokens, token_views};
use crate::text::{
    char_is_unicode_whitespace, first_index, find_char, is_unicode_whitespace, last_index,
    parse_u16, parse_u16_spec, push_str, rfind_char, str_eq, string_of,
};

verus! {

// ---------------------------------------------------------------------
// Errors
// ---------------------------------------------------------------------

/// Errors of the REPL layer.
#[derive(Debug)]
pub enum ReplError {
    /// The line does not follow the command grammar.
    Parse(String),
    /// A domain rule refused the line (such as a bad hex payload).
    Domain(DomainError),
    /// An I/O failure, with the system's message.
    Io(String),
}

pub enum ReplErrorView {
    Parse(Seq<char>),
    Domain(DomainErrorView),
    Io(Seq<char>),
}

impl View for ReplError {
    type V = ReplErrorView;

    open spec fn view(&self) -> ReplErrorView {
        match self {
            ReplError::Parse(s) => ReplErrorView::Parse(s@),
            ReplError::Domain(e) => ReplErrorView::Domain(e@),
            ReplError::Io(s) => ReplErrorView::Io(s@),
        }
    }
}

impl ReplErrorView {
    /// The text the error displays as.
    pub open spec fn message(self) -> Seq<char> {
        match self {
            ReplErrorView::Parse(s) => "parse error: "@ + s,
            ReplErrorView::Domain(e) => "domain error: "@ + e.message(),
            ReplErrorView::Io(s) => "io error: "@ + s,
        }
    }
}

impl ReplError {
    /// The error message, as it is shown to the user.
    pub fn to_string(&self) -> (r: String)
        ensures
            r@ == self@.message(),
    {
        match self {
            ReplError::Parse(s) => {
                let mut out = string_of("parse error: ");
                push_str(&mut out, s.as_str());
                out
            },
            ReplError::Domain(e) => {
                let mut out = string_of("domain error: ");
                let m = e.to_string();
                push_str(&mut out, m.as_str());
                out
            },
            ReplError::Io(s) => {
                let mut out = string_of("io error: ");
                push_str(&mut out, s.as_str());
                out
            },
        }
    }
}

impl ReplError {
    /// The line a refused input is answered with: `ERR <message>`.
    pub fn render(&self) -> (r: String)
        ensures
            r@ == "ERR "@ + self@.message(),
    {
        let mut out = string_of("ERR ");
        let m = self.to_string();
        push_str(&mut out, m.as_str());
        out
    }
}

/// A parse error with this message.
fn parse_err(msg: &str) -> (r: ReplError)
    ensures
        r@ == ReplErrorView::Parse(msg@),
{
    ReplError::Parse(string_of(msg))
}

/// A parse error with this message followed by `tail`.
fn parse_err_with(msg: &str, tail: &str) -> (r: ReplError)
    ensures
        r@ == ReplErrorView::Parse(msg@ + tail@),
{
    let mut s = string_of(msg);
    push_str(&mut s, tail);
    ReplError::Parse(s)
}

/// The text `format!("{s:?}")` gives for a string slice (quoted and
/// escaped).
pub uninterp spec fn str_debug_text(s: Seq<char>) -> Seq<char>;

/// `format!("{s:?}")`: the text quoted and escaped as std's `Debug` for
/// `str` writes it. The contract names that text and says no more.
#[verifier::external_body]
fn str_debug(s: &str) -> (r: String)
    ensures
        r@ == str_debug_text(s@),
{
    format!("{s:?}")
}

/// The error for an address without a port, the address shown as
/// `shown` (its `Debug` text).
pub fn host_port_error(shown: String) -> (r: ReplError)
    ensures
        r@ == ReplErrorView::Parse("expected host:port, got "@ + shown@),
{
    parse_err_with("expected host:port, got ", shown.as_str())
}

// ---------------------------------------------------------------------
// Trimming and splitting
// ---------------------------------------------------------------------

/// `a .. b` delimits the text of `s` without leading and trailing
/// Unicode whitespace.
pub open spec fn trim_bounds(s: Seq<char>, a: int, b: int) -> bool {
    &&& 0 <= a <= b <= s.len()
    &&& forall|j: int| 0 <= j < a ==> is_unicode_whitespace(#[trigger] s[j])
    &&& forall|j: int| b <= j < s.len() ==> is_unicode_whitespace(#[trigger] s[j])
    &&& a < b ==> !is_unicode_whitespace(s[a]) && !is_unicode_whitespace(s[b - 1])
}

/// `s` without leading and trailing Unicode whitespace, as `str::trim`.
pub open spec fn trim_spec(s: Seq<char>) -> Seq<char> {
    let (a, b) = choose|a: int, b: int| trim_bounds(s, a, b);
    s.subrange(a, b)
}

proof fn lemma_trim_bounds_unique(s: Seq<char>, a: int, b: int)
    requires
        trim_bounds(s, a, b),
    ensures
        trim_spec(s) == s.subrange(a, b),
{
    let (a2, b2) = choose|a2: int, b2: int| trim_bounds(s, a2, b2);
    assert(trim_bounds(s, a2, b2));
    if a < b {
        if a2 > a {
            assert(is_unicode_whitespace(s[a]));
        }
        if a2 < a {
            if a2 < b2 {
                assert(is_unicode_whitespace(s[a2]));
            } else {
                assert(is_unicode_whitespace(s[a]));
            }
        }
        if b2 < b {
            assert(is_unicode_whitespace(s[b - 1]));
        }
        if b2 > b {
            assert(is_unicode_whitespace(s[b2 - 1]));
        }
    } else {
        if a2 < b2 {
            if a2 < a {
                assert(is_unicode_whitespace(s[a2]));
            } else {
                assert(is_unicode_whitespace(s[a2]));
            }
        }
        assert(s.subrange(a2, b2) =~= Seq::<char>::empty());
        assert(s.subrange(a, b) =~= Seq::<char>::empty());
    }
}

/// `str::trim`: the slice without leading and trailing Unicode whitespace.
pub fn trim_str<'a>(s: &'a str) -> (r: &'a str)
    ensures
        r@ == trim_spec(s@),
{
    let n = s.unicode_len();
    let mut a: usize = 0;
    while a < n && char_is_unicode_whitespace(s.get_char(a))
        invariant
            n == s@.len(),
            0 <= a <= n,
            forall|j: int| 0 <= j < a ==> is_unicode_whitespace(#[trigger] s@[j]),
        decreases n - a,
    {
        a = a + 1;
    }
    let mut b: usize = n;
    while b > a && char_is_unicode_whitespace(s.get_char(b - 1))
        invariant
            n == s@.len(),
            0 <= a <= b <= n,
            a < n ==> !is_unicode_whitespace(s@[a as int]),
            forall|j: int| b <= j < n ==> is_unicode_whitespace(#[trigger] s@[j]),
        decreases b - a,
    {
        b = b - 1;
    }
    proof {
        lemma_trim_bounds_unique(s@, a as int, b as int);
    }
    s.substring_char(a, b)
}

/// The characters that separate tokens.
pub open spec fn is_sep(c: char) -> bool {
    c == ' ' || c == '\t'
}

/// The tokens of `s`: its maximal runs of characters other than space
/// and tab, in order.
pub open spec fn tokens_of(s: Seq<char>) -> Seq<Seq<char>>
    decreases s.len(),
{
    if s.len() == 0 {
        Seq::empty()
    } else {
        let rest = tokens_of(s.drop_last());
        let c = s.last();
        if is_sep(c) {
            rest
        } else if s.len() >= 2 && !is_sep(s[s.len() - 2]) {
            rest.drop_last().push(rest.last().push(c))
        } else {
            rest.push(seq![c])
        }
    }
}

/// Split on spaces and tabs, dropping empty pieces.
pub fn split_tokens<'a>(s: &'a str) -> (r: Vec<&'a str>)
    ensures
        token_views(r@) == tokens_of(s@),
{
    let n = s.unicode_len();
    let mut out: Vec<&'a str> = Vec::new();
    let mut start: usize = 0;
    let mut i: usize = 0;
    while i < n
        invariant
            n == s@.len(),
            0 <= start <= i <= n,
            forall|j: int| start <= j < i ==> !is_sep(#[trigger] s@[j]),
            start > 0 ==> is_sep(s@[start - 1]),
            tokens_of(s@.take(i as int)) == token_views(out@) + (if start < i {
                seq![s@.subrange(start as int, i as int)]
            } else {
                Seq::<Seq<char>>::empty()
            }),
        decreases n - i,
    {
        let c = s.get_char(i);
        let ghost t = s@.take(i as int + 1);
        let ghost o0 = token_views(out@);
        proof {
            assert(t.drop_last() =~= s@.take(i as int));
            assert(t.last() == c);
            if i >= 1 {
                assert(t[t.len() - 2] == s@[i - 1]);
            }
        }
        if c == ' ' || c == '\t' {
            if start < i {
                let piece = s.substring_char(start, i);
                out.push(piece);
                proof {
                    assert(token_views(out@) =~= o0.push(s@.subrange(start as int, i as int)));
                }
            }
            start = i + 1;
        } else {
            proof {
                if start < i {
                    assert(s@.subrange(start as int, i as int).push(c) =~= s@.subrange(
                        start as int,
                        i as int + 1,
                    ));
                    let rest = tokens_of(s@.take(i as int));
                    assert(rest.drop_last() =~= o0);
                } else {
                    assert(seq![c] =~= s@.subrange(i as int, i as int + 1));
                }
            }
        }
        i = i + 1;
    }
    proof {
        assert(s@.take(n as int) =~= s@);
    }
    if start < n {
        let ghost o0 = token_views(out@);
        let piece = s.substring_char(start, n);
        out.push(piece);
        proof {
            assert(token_views(out@) =~= o0.push(s@.subrange(start as int, n as int)));
        }
    } else {
        proof {
            assert(token_views(out@) + Seq::<Seq<char>>::empty() =~= token_views(out@));
        }
    }
    out
}

// ---------------------------------------------------------------------
// The grammar
// ---------------------------------------------------------------------

/// The view of a parse result.
pub open spec fn parsed_view(r: Result<Option<Command>, ReplError>) -> Result<Option<CommandView>, ReplErrorView> {
    match r {
        Ok(Some(c)) => Ok(Some(c@)),
        Ok(None) => Ok(None),
        Err(e) => Err(e@),
    }
}

pub open spec fn ok_cmd(c: CommandView) -> Result<Option<CommandView>, ReplErrorView> {
    Ok(Some(c))
}

pub open spec fn parse_failure(m: Seq<char>) -> Result<Option<CommandView>, ReplErrorView> {
    Err(ReplErrorView::Parse(m))
}

/// `host:port`, or `[ipv6]:port`, split into host and port.
pub open spec fn split_host_port_spec(s: Seq<char>) -> Result<(Seq<char>, u16), ReplErrorView> {
    if s.len() > 0 && s[0] == '[' {
        let rest = s.drop_first();
        match first_index(rest, ']') {
            None => Err(ReplErrorView::Parse("malformed ipv6 literal: "@ + s)),
            Some(end) => {
                let host = rest.take(end);
                let after = rest.skip(end + 1);
                if !(after.len() > 0 && after[0] == ':') {
                    Err(ReplErrorView::Parse("missing port after ipv6 literal: "@ + s))
                } else {
                    let port_str = after.drop_first();
                    match parse_u16_spec(port_str) {
                        None => Err(ReplErrorView::Parse("invalid port: "@ + port_str)),
                        Some(p) => Ok((host, p)),
                    }
                }
            },
        }
    } else {
        match last_index(s, ':') {
            None => Err(ReplErrorView::Parse("expected host:port, got "@ + str_debug_text(s))),
            Some(i) => {
                let port_str = s.skip(i + 1);
                match parse_u16_spec(port_str) {
                    None => Err(ReplErrorView::Parse("invalid port: "@ + port_str)),
                    Some(p) => Ok((s.take(i), p)),
                }
            },
        }
    }
}

/// The usage line of `open`.
pub open spec fn open_usage() -> Seq<char> {
    "usage: open server <port> | open ipc server <path> | open client <local_port> <host>:<port> | open ipc client <local_path> <remote_path>"@
}

/// The usage line of `open ipc`.
pub open spec fn open_ipc_usage() -> Seq<char> {
    "usage: open ipc server <path> | open ipc client <local_path> <remote_path>"@
}

/// `open ipc ...` after the words `open ipc`.
pub open spec fn parse_open_ipc_spec(args: Seq<Seq<char>>) -> Result<Option<CommandView>, ReplErrorView> {
    if args.len() == 0 {
        parse_failure(open_ipc_usage())
    } else if args[0] == "server"@ {
        if args.len() != 2 {
            parse_failure("usage: open ipc server <path>"@)
        } else {
            ok_cmd(CommandView::OpenIpcServer { path: args[1] })
        }
    } else if args[0] == "client"@ {
        if args.len() != 3 {
            parse_failure("usage: open ipc client <local_path> <remote_path>"@)
        } else {
            ok_cmd(CommandView::OpenIpcClient { local_path: args[1], remote_path: args[2] })
        }
    } else {
        parse_failure("unknown ipc variant: "@ + args[0])
    }
}

/// `open ...` after the word `open`.
pub open spec fn parse_open_spec(args: Seq<Seq<char>>) -> Result<Option<CommandView>, ReplErrorView> {
    if args.len() == 0 {
        parse_failure(open_usage())
    } else if args[0] == "server"@ {
        if args.len() != 2 {
            parse_failure("usage: open server <port>"@)
        } else {
            match parse_u16_spec(args[1]) {
                None => parse_failure("invalid port: "@ + args[1]),
                Some(port) => ok_cmd(CommandView::OpenTcpServer { port }),
            }
        }
    } else if args[0] == "client"@ {
        if args.len() != 3 {
            parse_failure("usage: open client <local_port> <host>:<port>"@)
        } else {
            match parse_u16_spec(args[1]) {
                None => parse_failure("invalid local port: "@ + args[1]),
                Some(local_port) => match split_host_port_spec(args[2]) {
                    Err(e) => Err(e),
                    Ok((remote_host, remote_port)) => ok_cmd(
                        CommandView::OpenTcpClient { local_port, remote_host, remote_port },
                    ),
                },
            }
        }
    } else if args[0] == "ipc"@ {
        parse_open_ipc_spec(args.drop_first())
    } else {
        parse_failure("unknown open variant: "@ + args[0])
    }
}

/// A whole line: the command its tokens spell, `None` for a blank line.
pub open spec fn parse_line_spec(line: Seq<char>) -> Result<Option<CommandView>, ReplErrorView> {
    let toks = tokens_of(trim_spec(line));
    if toks.len() == 0 {
        Ok(None)
    } else if toks[0] == "open"@ {
        parse_open_spec(toks.drop_first())
    } else if toks[0] == "close"@ {
        if toks.len() != 2 {
            parse_failure("usage: close <id>"@)
        } else {
            ok_cmd(CommandView::Close { id_token: toks[1] })
        }
    } else if toks[0] == "label"@ {
        if toks.len() != 3 {
            parse_failure("usage: label <id> <name>"@)
        } else {
            ok_cmd(CommandView::Label { id_token: toks[1], name: toks[2] })
        }
    } else if toks[0] == "status"@ {
        if toks.len() != 1 {
            parse_failure("usage: status"@)
        } else {
            ok_cmd(CommandView::Status)
        }
    } else if toks.len() < 2 {
        parse_failure("expected `<id> <hex bytes...>` or a known command"@)
    } else {
        match parse_hex_spec(toks.drop_first()) {
            Ok(bytes) => ok_cmd(CommandView::Send { id_token: toks[0], bytes }),
            Err(e) => Err(ReplErrorView::Domain(e)),
        }
    }
}

/// The slices from position `from` on.
fn tail<'a>(v: &[&'a str], from: usize) -> (r: Vec<&'a str>)
    requires
        from <= v@.len(),
    ensures
        token_views(r@) == token_views(v@).skip(from as int),
{
    let mut out: Vec<&'a str> = Vec::new();
    let mut i: usize = from;
    while i < v.len()
        invariant
            from <= i <= v@.len(),
            token_views(out@) == token_views(v@).subrange(from as int, i as int),
        decreases v@.len() - i,
    {
        let ghost o0 = token_views(out@);
        out.push(v[i]);
        proof {
            assert(token_views(out@) =~= o0.push(v@[i as int]@));
            assert(token_views(v@).subrange(from as int, i as int + 1) =~= token_views(v@).subrange(
                from as int,
                i as int,
            ).push(v@[i as int]@));
        }
        i = i + 1;
    }
    proof {
        assert(token_views(v@).subrange(from as int, v@.len() as int) =~= token_views(v@).skip(
            from as int,
        ));
    }
    out
}

/// Split `host:port`, or `[ipv6]:port` (brackets dropped).
pub fn split_host_port(s: &str) -> (r: Result<(String, u16), ReplError>)
    ensures
        match r {
            Ok((h, p)) => split_host_port_spec(s@) == Ok::<(Seq<char>, u16), ReplErrorView>((h@, p)),
            Err(e) => split_host_port_spec(s@) == Err::<(Seq<char>, u16), ReplErrorView>(e@),
        },
{
    let n = s.unicode_len();
    if n > 0 && s.get_char(0) == '[' {
        let rest = s.substring_char(1, n);
        proof {
            assert(rest@ =~= s@.drop_first());
        }
        match find_char(rest, ']') {
            None => Err(parse_err_with("malformed ipv6 literal: ", s)),
            Some(end) => {
                let m = rest.unicode_len();
                let host = rest.substring_char(0, end);
                let after = rest.substring_char(end + 1, m);
                proof {
                    assert(host@ =~= rest@.take(end as int));
                    assert(after@ =~= rest@.skip(end + 1));
                }
                let k = after.unicode_len();
                if !(k > 0 && after.get_char(0) == ':') {
                    return Err(parse_err_with("missing port after ipv6 literal: ", s));
                }
                let port_str = after.substring_char(1, k);
                proof {
                    assert(port_str@ =~= after@.drop_first());
                }
                match parse_u16(port_str) {
                    None => Err(parse_err_with("invalid port: ", port_str)),
                    Some(p) => Ok((string_of(host), p)),
                }
            },
        }
    } else {
        match rfind_char(s, ':') {
            None => {
                Err(host_port_error(str_debug(s)))
            },
            Some(i) => {
                let host = s.substring_char(0, i);
                let port_str = s.substring_char(i + 1, n);
                proof {
                    assert(host@ =~= s@.take(i as int));
                    assert(port_str@ =~= s@.skip(i + 1));
                }
                match parse_u16(port_str) {
                    None => Err(parse_err_with("invalid port: ", port_str)),
                    Some(p) => Ok((string_of(host), p)),
                }
            },
        }
    }
}

/// `open ipc ...` after the words `open ipc`.
pub fn parse_open_ipc(args: &[&str]) -> (r: Result<Option<Command>, ReplError>)
    ensures
        parsed_view(r) == parse_open_ipc_spec(token_views(args@)),
{
    let ghost a = token_views(args@);
    if args.len() == 0 {
        return Err(parse_err(
            "usage: open ipc server <path> | open ipc client <local_path> <remote_path>",
        ));
    }
    proof {
        assert(a[0] == args@[0]@);
    }
    if str_eq(args[0], "server") {
        if args.len() != 2 {
            return Err(parse_err("usage: open ipc server <path>"));
        }
        proof {
            assert(a[1] == args@[1]@);
        }
        Ok(Some(Command::OpenIpcServer { path: string_of(args[1]) }))
    } else if str_eq(args[0], "client") {
        if args.len() != 3 {
            return Err(parse_err("usage: open ipc client <local_path> <remote_path>"));
        }
        proof {
            assert(a[1] == args@[1]@ && a[2] == args@[2]@);
        }
        Ok(Some(Command::OpenIpcClient { local_path: string_of(args[1]), remote_path: string_of(args[2]) }))
    } else {
        Err(parse_err_with("unknown ipc variant: ", args[0]))
    }
}

/// `open ...` after the word `open`.
pub fn parse_open(args: &[&str]) -> (r: Result<Option<Command>, ReplError>)
    ensures
        parsed_view(r) == parse_open_spec(token_views(args@)),
{
    let ghost a = token_views(args@);
    if args.len() == 0 {
        return Err(parse_err(
            "usage: open server <port> | open ipc server <path> | open client <local_port> <host>:<port> | open ipc client <local_path> <remote_path>",
        ));
    }
    proof {
        assert(a[0] == args@[0]@);
    }
    if str_eq(args[0], "server") {
        if args.len() != 2 {
            return Err(parse_err("usage: open server <port>"));
        }
        proof {
            assert(a[1] == args@[1]@);
        }
        match parse_u16(args[1]) {
            None => Err(parse_err_with("invalid port: ", args[1])),
            Some(port) => Ok(Some(Command::OpenTcpServer { port })),
        }
    } else if str_eq(args[0], "client") {
        if args.len() != 3 {
            return Err(parse_err("usage: open client <local_port> <host>:<port>"));
        }
        proof {
            assert(a[1] == args@[1]@ && a[2] == args@[2]@);
        }
        match parse_u16(args[1]) {
            None => Err(parse_err_with("invalid local port: ", args[1])),
            Some(local_port) => match split_host_port(args[2]) {
                Err(e) => Err(e),
                Ok((remote_host, remote_port)) => Ok(
                    Some(Command::OpenTcpClient { local_port, remote_host, remote_port }),
                ),
            },
        }
    } else if str_eq(args[0], "ipc") {
        let rest = tail(args, 1);
        proof {
            assert(a.skip(1) =~= a.drop_first());
        }
        parse_open_ipc(rest.as_slice())
    } else {
        Err(parse_err_with("unknown open variant: ", args[0]))
    }
}

/// Parse a single REPL line. A blank line gives `Ok(None)`.
pub fn parse_line(line: &str) -> (r: Result<Option<Command>, ReplError>)
    ensures
        parsed_view(r) == parse_line_spec(line@),
{
    let trimmed = trim_str(line);
    let tokens = split_tokens(trimmed);
    let ghost toks = token_views(tokens@);
    if tokens.len() == 0 {
        return Ok(None);
    }
    proof {
        assert(toks[0] == tokens@[0]@);
    }
    let first = tokens[0];
    if str_eq(first, "open") {
        let rest = tail(tokens.as_slice(), 1);
        proof {
            assert(toks.skip(1) =~= toks.drop_first());
        }
        parse_open(rest.as_slice())
    } else if str_eq(first, "close") {
        if tokens.len() != 2 {
            return Err(parse_err("usage: close <id>"));
        }
        proof {
            assert(toks[1] == tokens@[1]@);
        }
        Ok(Some(Command::Close { id_token: string_of(tokens[1]) }))
    } else if str_eq(first, "label") {
        if tokens.len() != 3 {
            return Err(parse_err("usage: label <id> <name>"));
        }
        proof {
            assert(toks[1] == tokens@[1]@ && toks[2] == tokens@[2]@);
        }
        Ok(Some(Command::Label { id_token: string_of(tokens[1]), name: string_of(tokens[2]) }))
    } else if str_eq(first, "status") {
        if tokens.len() != 1 {
            return Err(parse_err("usage: status"));
        }
        Ok(Some(Command::Status))
    } else {
        if tokens.len() < 2 {
            return Err(parse_err("expected `<id> <hex bytes...>` or a known command"));
        }
        let rest = tail(tokens.as_slice(), 1);
        proof {
            assert(toks.skip(1) =~= toks.drop_first());
        }
        match parse_hex_tokens(rest.as_slice()) {
            Ok(bytes) => Ok(Some(Command::Send { id_token: string_of(first), bytes })),
            Err(e) => Err(ReplError::Domain(e)),
        }
    }
}

} // verus!
