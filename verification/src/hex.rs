//! Hand-written hex parse and format.
//!
//! Tokens are concatenated, case-insensitive, then split into pairs; an odd
//! digit count and an empty payload are errors.

use vstd::prelude::*;

use crate::error::{DomainError, DomainErrorView};
use crate::text::{char_hex_value, char_is_hex_digit, hex_value, is_hex_digit, push_char, push_str, string_of};

verus! {

/// The characters of all tokens, in order.
pub open spec fn joined(tokens: Seq<Seq<char>>) -> Seq<char> {
    tokens.flatten_alt()
}

/// The views of a slice of string slices.
pub open spec fn token_views(tokens: Seq<&str>) -> Seq<Seq<char>> {
    tokens.map_values(|t: &str| t@)
}

/// Index of the first character that is not a hex digit.
pub open spec fn first_non_hex(s: Seq<char>) -> Option<int> {
    if exists|i: int| 0 <= i < s.len() && !is_hex_digit(s[i]) {
        Some(
            choose|i: int|
                0 <= i < s.len() && !is_hex_digit(s[i]) && forall|j: int|
                    0 <= j < i ==> is_hex_digit(s[j]),
        )
    } else {
        None
    }
}

/// The bytes that an even-length string of hex digits encodes.
pub open spec fn hex_bytes(d: Seq<char>) -> Seq<u8> {
    Seq::new(
        d.len() / 2,
        |i: int| (hex_value(d[2 * i]) * 16 + hex_value(d[2 * i + 1])) as u8,
    )
}

/// The text `format!("{c:?}")` gives for a character (quoted and escaped).
pub uninterp spec fn char_debug_text(c: char) -> Seq<char>;

/// What `parse_hex_tokens` gives for tokens with these characters.
pub open spec fn parse_hex_spec(tokens: Seq<Seq<char>>) -> Result<Seq<u8>, DomainErrorView> {
    let j = joined(tokens);
    if tokens.len() == 0 {
        Err(DomainErrorView::EmptyPayload)
    } else if first_non_hex(j) is Some {
        Err(
            DomainErrorView::InvalidHex(
                "non-hex character: "@ + char_debug_text(j[first_non_hex(j)->0]),
            ),
        )
    } else if j.len() == 0 {
        Err(DomainErrorView::EmptyPayload)
    } else if j.len() % 2 != 0 {
        Err(DomainErrorView::InvalidHex("odd number of hex digits"@))
    } else {
        Ok(hex_bytes(j))
    }
}

/// `format!("{c:?}")`: the character quoted and escaped as std's `Debug`
/// for `char` writes it. The contract names that text and says no more.
#[verifier::external_body]
fn char_debug(c: char) -> (r: String)
    ensures
        r@ == char_debug_text(c),
{
    format!("{c:?}")
}

/// The error for a payload whose first non-hex character is shown as
/// `shown` (its `Debug` text).
pub fn non_hex_error(shown: String) -> (r: DomainError)
    ensures
        r@ == DomainErrorView::InvalidHex("non-hex character: "@ + shown@),
{
    let mut msg = string_of("non-hex character: ");
    push_str(&mut msg, shown.as_str());
    DomainError::InvalidHex(msg)
}

proof fn lemma_joined_prefix(s: Seq<Seq<char>>, k: int)
    requires
        0 <= k <= s.len(),
    ensures
        joined(s.take(k)).len() <= joined(s).len(),
        joined(s.take(k)) == joined(s).take(joined(s.take(k)).len() as int),
    decreases s.len(),
{
    if k == s.len() {
        assert(s.take(k) =~= s);
    } else {
        assert(s.drop_last().take(k) =~= s.take(k));
        lemma_joined_prefix(s.drop_last(), k);
        assert(joined(s) == joined(s.drop_last()) + s.last());
        assert(joined(s.take(k)) =~= joined(s).take(joined(s.take(k)).len() as int));
    }
}

proof fn lemma_first_non_hex_at(toks: Seq<Seq<char>>, k: int, j: int, digits: Seq<char>)
    requires
        0 <= k < toks.len(),
        0 <= j < toks[k].len(),
        digits == joined(toks.take(k)) + toks[k].take(j),
        forall|i: int| 0 <= i < digits.len() ==> is_hex_digit(#[trigger] digits[i]),
        !is_hex_digit(toks[k][j]),
    ensures
        first_non_hex(joined(toks)) == Some(digits.len() as int),
        joined(toks)[digits.len() as int] == toks[k][j],
{
    let pre = joined(toks.take(k));
    let t = toks[k];
    let whole = joined(toks);
    assert(toks.take(k + 1).drop_last() =~= toks.take(k));
    assert(joined(toks.take(k + 1)) == pre + t);
    lemma_joined_prefix(toks, k + 1);
    let p = digits.len() as int;
    assert(whole[p] == (pre + t)[p]);
    assert(forall|i: int| 0 <= i < p ==> whole[i] == (pre + t)[i]);
    assert(forall|i: int| 0 <= i < p ==> whole[i] == digits[i]);
    assert(!is_hex_digit(whole[p]));
    let w = first_non_hex(whole)->0;
    if w < p {
        assert(whole[w] == digits[w]);
        assert(is_hex_digit(digits[w]));
    } else if w > p {
        assert(is_hex_digit(whole[p]));
    }
}

/// Parse a slice of whitespace-separated hex tokens into raw bytes.
///
/// Rules:
/// * no token, or only empty tokens -> `EmptyPayload`,
/// * any non-hex character -> `InvalidHex`,
/// * odd total digit count -> `InvalidHex("odd number of hex digits")`.
pub fn parse_hex_tokens(tokens: &[&str]) -> (r: Result<Vec<u8>, DomainError>)
    ensures
        match r {
            Ok(v) => parse_hex_spec(token_views(tokens@)) == Ok::<Seq<u8>, DomainErrorView>(v@),
            Err(e) => parse_hex_spec(token_views(tokens@)) == Err::<Seq<u8>, DomainErrorView>(e@),
        },
{
    let ghost toks = token_views(tokens@);
    if tokens.len() == 0 {
        return Err(DomainError::EmptyPayload);
    }
    let mut digits: Vec<char> = Vec::new();
    let mut k: usize = 0;
    while k < tokens.len()
        invariant
            0 <= k <= tokens@.len(),
            toks == token_views(tokens@),
            toks.len() == tokens@.len(),
            digits@ == joined(toks.take(k as int)),
            forall|i: int| 0 <= i < digits@.len() ==> is_hex_digit(#[trigger] digits@[i]),
        decreases tokens@.len() - k,
    {
        let t: &str = tokens[k];
        assert(toks[k as int] == t@);
        let n = t.unicode_len();
        let mut j: usize = 0;
        while j < n
            invariant
                0 <= k < tokens@.len(),
                toks == token_views(tokens@),
                toks.len() == tokens@.len(),
                toks[k as int] == t@,
                n == t@.len(),
                0 <= j <= n,
                digits@ == joined(toks.take(k as int)) + t@.take(j as int),
                forall|i: int| 0 <= i < digits@.len() ==> is_hex_digit(#[trigger] digits@[i]),
            decreases n - j,
        {
            let c = t.get_char(j);
            if !char_is_hex_digit(c) {
                proof {
                    lemma_first_non_hex_at(toks, k as int, j as int, digits@);
                }
                return Err(non_hex_error(char_debug(c)));
            }
            digits.push(c);
            proof {
                assert(t@.take(j as int + 1) =~= t@.take(j as int).push(c));
            }
            j = j + 1;
        }
        proof {
            assert(t@.take(n as int) =~= t@);
            assert(toks.take(k as int + 1).drop_last() =~= toks.take(k as int));
        }
        k = k + 1;
    }
    proof {
        assert(toks.take(tokens@.len() as int) =~= toks);
        assert(first_non_hex(joined(toks)) is None);
    }
    let total = digits.len();
    if total == 0 {
        return Err(DomainError::EmptyPayload);
    }
    if total % 2 != 0 {
        return Err(DomainError::InvalidHex(string_of("odd number of hex digits")));
    }
    let mut out: Vec<u8> = Vec::new();
    let mut i: usize = 0;
    while i < total
        invariant
            total == digits@.len(),
            total % 2 == 0,
            i % 2 == 0,
            0 <= i <= total,
            forall|x: int| 0 <= x < digits@.len() ==> is_hex_digit(#[trigger] digits@[x]),
            out@ =~= hex_bytes(digits@).take(i as int / 2),
        decreases total - i,
    {
        let hi = char_hex_value(digits[i]);
        let lo = char_hex_value(digits[i + 1]);
        out.push(hi * 16 + lo);
        proof {
            assert(hex_bytes(digits@).take(i as int / 2 + 1) =~= hex_bytes(digits@).take(
                i as int / 2,
            ).push(hex_bytes(digits@)[i as int / 2]));
            assert(2 * (i as int / 2) == i);
        }
        i = i + 2;
    }
    assert(hex_bytes(digits@).take(total as int / 2) =~= hex_bytes(digits@));
    Ok(out)
}

/// The upper-case hex digit of a value below 16.
pub open spec fn upper_hex_char(d: nat) -> char {
    if d < 10 {
        (d + 48) as char
    } else {
        (d + 55) as char
    }
}

/// Two upper-case hex digits of a byte.
pub open spec fn hex_pair(b: u8) -> Seq<char> {
    seq![upper_hex_char((b / 16) as nat), upper_hex_char((b % 16) as nat)]
}

/// Bytes as space-separated upper-case pairs, e.g. `49 35 00 11`.
pub open spec fn format_hex_spec(bs: Seq<u8>) -> Seq<char>
    decreases bs.len(),
{
    if bs.len() == 0 {
        Seq::empty()
    } else if bs.len() == 1 {
        hex_pair(bs[0])
    } else {
        format_hex_spec(bs.drop_last()) + seq![' '] + hex_pair(bs.last())
    }
}

fn upper_hex_digit(d: u8) -> (c: char)
    requires
        d < 16,
    ensures
        c == upper_hex_char(d as nat),
{
    match d {
        0 => '0',
        1 => '1',
        2 => '2',
        3 => '3',
        4 => '4',
        5 => '5',
        6 => '6',
        7 => '7',
        8 => '8',
        9 => '9',
        10 => 'A',
        11 => 'B',
        12 => 'C',
        13 => 'D',
        14 => 'E',
        _ => 'F',
    }
}

/// Format bytes as space-separated uppercase hex, e.g. `49 35 00 11`.
pub fn format_hex_spaced(bytes: &[u8]) -> (r: String)
    ensures
        r@ == format_hex_spec(bytes@),
{
    let mut s = String::new();
    let n = bytes.len();
    let mut i: usize = 0;
    while i < n
        invariant
            n == bytes@.len(),
            0 <= i <= n,
            s@ == format_hex_spec(bytes@.take(i as int)),
        decreases n - i,
    {
        let b = bytes[i];
        let ghost before = s@;
        if i > 0 {
            push_char(&mut s, ' ');
        }
        push_char(&mut s, upper_hex_digit(b / 16));
        push_char(&mut s, upper_hex_digit(b % 16));
        proof {
            let t = bytes@.take(i as int + 1);
            assert(t.drop_last() =~= bytes@.take(i as int));
            assert(t.last() == b);
            if i == 0 {
                assert(s@ =~= format_hex_spec(t));
            } else {
                assert(s@ =~= format_hex_spec(t));
            }
        }
        i = i + 1;
    }
    assert(bytes@.take(n as int) =~= bytes@);
    s
}

} // verus!
