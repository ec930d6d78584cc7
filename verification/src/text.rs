//! Character classes, decimal text and small string helpers shared by the
//! parsers and the renderers.
//!
//! Every helper works on the character view of a string (`Seq<char>`).
//! Rust orders `String`s by their UTF-8 bytes, and UTF-8 keeps the order of
//! code points, so the character-wise order used here is the same order.

use vstd::prelude::*;

verus! {

// ---------------------------------------------------------------------
// Character classes
// ---------------------------------------------------------------------

/// ASCII decimal digit.
pub open spec fn is_digit(c: char) -> bool {
    48 <= (c as u32) && (c as u32) <= 57
}

/// ASCII hexadecimal digit, either case.
pub open spec fn is_hex_digit(c: char) -> bool {
    ||| is_digit(c)
    ||| (97 <= (c as u32) && (c as u32) <= 102)
    ||| (65 <= (c as u32) && (c as u32) <= 70)
}

/// Numeric value of a hexadecimal digit.
pub open spec fn hex_value(c: char) -> nat {
    if is_digit(c) {
        ((c as u32) - 48) as nat
    } else if 97 <= (c as u32) && (c as u32) <= 102 {
        ((c as u32) - 87) as nat
    } else {
        ((c as u32) - 55) as nat
    }
}

/// Unicode `White_Space`, the class that `char::is_whitespace` and
/// `str::trim` use.
pub open spec fn is_unicode_whitespace(c: char) -> bool {
    let u = c as u32;
    ||| (9 <= u && u <= 13)
    ||| u == 32
    ||| u == 0x85
    ||| u == 0xA0
    ||| u == 0x1680
    ||| (0x2000 <= u && u <= 0x200A)
    ||| u == 0x2028
    ||| u == 0x2029
    ||| u == 0x202F
    ||| u == 0x205F
    ||| u == 0x3000
}

pub fn char_is_digit(c: char) -> (r: bool)
    ensures
        r == is_digit(c),
{
    let u = c as u32;
    48 <= u && u <= 57
}

pub fn char_is_hex_digit(c: char) -> (r: bool)
    ensures
        r == is_hex_digit(c),
{
    let u = c as u32;
    (48 <= u && u <= 57) || (97 <= u && u <= 102) || (65 <= u && u <= 70)
}

pub fn char_hex_value(c: char) -> (r: u8)
    requires
        is_hex_digit(c),
    ensures
        r as nat == hex_value(c),
        r < 16,
{
    let u = c as u32;
    if 48 <= u && u <= 57 {
        (u - 48) as u8
    } else if 97 <= u && u <= 102 {
        (u - 87) as u8
    } else {
        (u - 55) as u8
    }
}

pub fn char_is_unicode_whitespace(c: char) -> (r: bool)
    ensures
        r == is_unicode_whitespace(c),
{
    let u = c as u32;
    (9 <= u && u <= 13) || u == 32 || u == 0x85 || u == 0xA0 || u == 0x1680 || (0x2000 <= u && u
        <= 0x200A) || u == 0x2028 || u == 0x2029 || u == 0x202F || u == 0x205F || u == 0x3000
}

// ---------------------------------------------------------------------
// Building strings
// ---------------------------------------------------------------------

/// Appends one character. Wraps `String::push`, which std documents as
/// appending the given `char` to the end of the string; the contract says
/// exactly that of the character view.
#[verifier::external_body]
pub(crate) fn push_char(s: &mut String, c: char)
    ensures
        final(s)@ == old(s)@.push(c),
{
    s.push(c);
}

/// Appends a string slice (through vstd's specified `append`).
pub(crate) fn push_str(s: &mut String, t: &str)
    ensures
        final(s)@ == old(s)@ + t@,
{
    s.append(t);
}

/// A fresh `String` holding `t`.
pub(crate) fn string_of(t: &str) -> (r: String)
    ensures
        r@ == t@,
{
    String::from_str(t)
}

// ---------------------------------------------------------------------
// Decimal text
// ---------------------------------------------------------------------

/// The ASCII digit for `d % 10`.
pub open spec fn digit_char(d: nat) -> char {
    ((d % 10) + 48) as char
}

/// Decimal text of a natural number, without sign or leading zeros.
pub open spec fn dec_text(n: nat) -> Seq<char>
    decreases n,
{
    if n < 10 {
        seq![digit_char(n)]
    } else {
        dec_text(n / 10).push(digit_char(n % 10))
    }
}

/// Decimal text of an integer: a `-` in front of negative values.
pub open spec fn int_text(n: int) -> Seq<char> {
    if n < 0 {
        seq!['-'] + dec_text((-n) as nat)
    } else {
        dec_text(n as nat)
    }
}

fn digit_to_char(d: u64) -> (c: char)
    requires
        d < 10,
    ensures
        c == digit_char(d as nat),
{
    match d {
        0 => '0',
        1 => '1',
        2 => '2',
        3 => '3',
        4 => '4',
        5 => '5',
        6 => '6',
        7 => '7',
        8 => '8',
        _ => '9',
    }
}

/// Appends the decimal text of `n`.
pub fn push_dec(s: &mut String, n: u64)
    ensures
        final(s)@ == old(s)@ + dec_text(n as nat),
    decreases n,
{
    if n >= 10 {
        push_dec(s, n / 10);
        push_char(s, digit_to_char(n % 10));
        assert(final(s)@ == old(s)@ + dec_text(n as nat)) by {
            assert(dec_text(n as nat) == dec_text((n / 10) as nat).push(digit_char((n % 10) as nat)));
        }
    } else {
        push_char(s, digit_to_char(n));
        assert(final(s)@ =~= old(s)@ + dec_text(n as nat));
    }
}

/// Appends the decimal text of a signed value.
pub fn push_int(s: &mut String, n: i64)
    requires
        n > i64::MIN,
    ensures
        final(s)@ == old(s)@ + int_text(n as int),
{
    if n < 0 {
        push_char(s, '-');
        push_dec(s, (-n) as u64);
        assert(final(s)@ =~= old(s)@ + int_text(n as int));
    } else {
        push_dec(s, n as u64);
    }
}

/// The decimal text of `n` as a new string.
pub fn dec_string(n: u64) -> (r: String)
    ensures
        r@ == dec_text(n as nat),
{
    let mut s = String::new();
    push_dec(&mut s, n);
    assert(s@ =~= dec_text(n as nat));
    s
}

// ---------------------------------------------------------------------
// Parsing decimal numbers (`str::parse` on unsigned integers)
// ---------------------------------------------------------------------

pub open spec fn all_digits(s: Seq<char>) -> bool {
    forall|i: int| 0 <= i < s.len() ==> #[trigger] is_digit(s[i])
}

/// Value of a string of decimal digits.
pub open spec fn digits_value(s: Seq<char>) -> nat
    decreases s.len(),
{
    if s.len() == 0 {
        0
    } else {
        digits_value(s.drop_last()) * 10 + ((s.last() as u32) - 48) as nat
    }
}

/// The digits that `str::parse` reads for an unsigned type: one leading
/// `+` is allowed and skipped.
pub open spec fn unsigned_digits(s: Seq<char>) -> Seq<char> {
    if s.len() > 0 && s[0] == '+' {
        s.drop_first()
    } else {
        s
    }
}

/// What `str::parse` gives for an unsigned type whose maximum is `max`:
/// an optional `+`, then at least one ASCII digit and nothing else, with a
/// value that fits.
pub open spec fn parse_unsigned(s: Seq<char>, max: nat) -> Option<nat> {
    let d = unsigned_digits(s);
    if d.len() > 0 && all_digits(d) && digits_value(d) <= max {
        Some(digits_value(d))
    } else {
        None
    }
}

#[verifier::opaque]
pub open spec fn parse_u16_spec(s: Seq<char>) -> Option<u16> {
    match parse_unsigned(s, u16::MAX as nat) {
        Some(v) => Some(v as u16),
        None => None,
    }
}

#[verifier::opaque]
pub open spec fn parse_u32_spec(s: Seq<char>) -> Option<u32> {
    match parse_unsigned(s, u32::MAX as nat) {
        Some(v) => Some(v as u32),
        None => None,
    }
}

proof fn lemma_digits_value_prefix(s: Seq<char>, k: int)
    requires
        0 <= k <= s.len(),
        all_digits(s),
    ensures
        digits_value(s.take(k)) <= digits_value(s),
    decreases s.len(),
{
    if k < s.len() {
        assert(s.drop_last().take(k) =~= s.take(k));
        assert forall|i: int| 0 <= i < s.drop_last().len() implies #[trigger] is_digit(
            s.drop_last()[i],
        ) by {
            assert(is_digit(s[i]));
        }
        lemma_digits_value_prefix(s.drop_last(), k);
    } else {
        assert(s.take(k) =~= s);
    }
}

/// The decimal text of a number is digits only, and reads back as the
/// number.
pub proof fn lemma_dec_text(n: nat)
    ensures
        dec_text(n).len() > 0,
        all_digits(dec_text(n)),
        digits_value(dec_text(n)) == n,
    decreases n,
{
    let c = digit_char(n);
    assert(((n % 10) + 48) as char as u32 == (n % 10) + 48);
    assert(is_digit(c));
    if n < 10 {
        let s = dec_text(n);
        assert(s.drop_last() =~= Seq::<char>::empty());
        assert(digits_value(Seq::<char>::empty()) == 0);
    } else {
        lemma_dec_text(n / 10);
        let f = dec_text(n / 10);
        let s = dec_text(n);
        assert(s.drop_last() =~= f);
        assert(s.last() == c);
        assert forall|i: int| 0 <= i < s.len() implies #[trigger] is_digit(s[i]) by {
            if i < f.len() {
                assert(s[i] == f[i]);
            }
        }
        assert((n / 10) * 10 + n % 10 == n);
    }
}

/// `str::parse` reads the decimal text of a number back as the number.
pub proof fn lemma_parse_dec_text(n: nat)
    ensures
        n <= u16::MAX ==> parse_u16_spec(dec_text(n)) == Some(n as u16),
        n <= u32::MAX ==> parse_u32_spec(dec_text(n)) == Some(n as u32),
{
    lemma_dec_text(n);
    let s = dec_text(n);
    assert(is_digit(s[0]));
    assert(unsigned_digits(s) == s);
    reveal(parse_u16_spec);
    reveal(parse_u32_spec);
}

/// A string of ASCII digits reads as no `u16` when it holds another
/// character too.
pub proof fn lemma_parse_needs_digits(s: Seq<char>, i: int)
    requires
        0 < i < s.len(),
        !is_digit(s[i]),
    ensures
        parse_u16_spec(s) is None,
        parse_u32_spec(s) is None,
{
    reveal(parse_u16_spec);
    reveal(parse_u32_spec);
    let d = unsigned_digits(s);
    if s[0] == '+' {
        assert(d[i - 1] == s[i]);
    } else {
        assert(d[i] == s[i]);
    }
}

fn parse_dec(s: &str, max: u64) -> (r: Option<u64>)
    requires
        max <= u32::MAX,
    ensures
        match r {
            Some(v) => parse_unsigned(s@, max as nat) == Some(v as nat),
            None => parse_unsigned(s@, max as nat) is None,
        },
{
    let n = s.unicode_len();
    let start: usize = if n > 0 && s.get_char(0) == '+' {
        1
    } else {
        0
    };
    let ghost d = unsigned_digits(s@);
    assert(d =~= s@.subrange(start as int, n as int));
    if start == n {
        return None;
    }
    let mut acc: u64 = 0;
    let mut i: usize = start;
    while i < n
        invariant
            start <= i <= n,
            n == s@.len(),
            d == s@.subrange(start as int, n as int),
            d == unsigned_digits(s@),
            all_digits(d.take(i - start)),
            acc as nat == digits_value(d.take(i - start)),
            acc <= max,
            max <= u32::MAX,
        decreases n - i,
    {
        let c = s.get_char(i);
        if !char_is_digit(c) {
            assert(d[i - start] == c);
            assert(!is_digit(d[i - start]));
            assert(!all_digits(d));
            return None;
        }
        let v = (c as u32 - 48) as u64;
        acc = acc * 10 + v;
        proof {
            let k = i - start;
            assert(d.take(k + 1).drop_last() =~= d.take(k));
            assert(d.take(k + 1).last() == c);
            assert(digits_value(d.take(k + 1)) == digits_value(d.take(k)) * 10 + ((c as u32) - 48) as nat);
            assert forall|j: int| 0 <= j < d.take(k + 1).len() implies #[trigger] is_digit(
                d.take(k + 1)[j],
            ) by {
                if j < k {
                    assert(d.take(k + 1)[j] == d.take(k)[j]);
                }
            }
        }
        if acc > max {
            proof {
                let k = i - start + 1;
                if all_digits(d) {
                    lemma_digits_value_prefix(d, k);
                    assert(digits_value(d) > max);
                }
            }
            return None;
        }
        i = i + 1;
    }
    assert(d.take(n - start) =~= d);
    Some(acc)
}

/// `str::parse::<u16>()`, `Ok` as `Some`.
pub fn parse_u16(s: &str) -> (r: Option<u16>)
    ensures
        r == parse_u16_spec(s@),
{
    reveal(parse_u16_spec);
    match parse_dec(s, 65535) {
        Some(v) => Some(v as u16),
        None => None,
    }
}

/// `str::parse::<u32>()`, `Ok` as `Some`.
pub fn parse_u32(s: &str) -> (r: Option<u32>)
    ensures
        r == parse_u32_spec(s@),
{
    reveal(parse_u32_spec);
    match parse_dec(s, 4294967295) {
        Some(v) => Some(v as u32),
        None => None,
    }
}

// ---------------------------------------------------------------------
// Comparing and searching
// ---------------------------------------------------------------------

/// String equality on the character view.
pub fn str_eq(a: &str, b: &str) -> (r: bool)
    ensures
        r == (a@ == b@),
{
    let n = a.unicode_len();
    if n != b.unicode_len() {
        return false;
    }
    let mut i: usize = 0;
    while i < n
        invariant
            n == a@.len(),
            n == b@.len(),
            0 <= i <= n,
            forall|j: int| 0 <= j < i ==> a@[j] == b@[j],
        decreases n - i,
    {
        if a.get_char(i) != b.get_char(i) {
            return false;
        }
        i = i + 1;
    }
    assert(a@ =~= b@);
    true
}

/// Whether `p` is a prefix of `s`.
pub fn str_has_prefix(s: &str, p: &str) -> (r: bool)
    ensures
        r == (p@.len() <= s@.len() && s@.take(p@.len() as int) == p@),
{
    let n = s.unicode_len();
    let m = p.unicode_len();
    if m > n {
        return false;
    }
    let mut i: usize = 0;
    while i < m
        invariant
            n == s@.len(),
            m == p@.len(),
            m <= n,
            0 <= i <= m,
            forall|j: int| 0 <= j < i ==> s@[j] == p@[j],
        decreases m - i,
    {
        if s.get_char(i) != p.get_char(i) {
            assert(s@.take(m as int)[i as int] != p@[i as int]);
            return false;
        }
        i = i + 1;
    }
    assert(s@.take(m as int) =~= p@);
    true
}

/// Position of the first occurrence of `c`, as `str::find` with a `char`
/// pattern (counted in characters here).
#[verifier::opaque]
pub open spec fn first_index(s: Seq<char>, c: char) -> Option<int> {
    if exists|i: int| 0 <= i < s.len() && s[i] == c {
        Some(
            choose|i: int|
                0 <= i < s.len() && s[i] == c && forall|j: int| 0 <= j < i ==> s[j] != c,
        )
    } else {
        None
    }
}

/// Position of the last occurrence of `c`.
#[verifier::opaque]
pub open spec fn last_index(s: Seq<char>, c: char) -> Option<int> {
    if exists|i: int| 0 <= i < s.len() && s[i] == c {
        Some(
            choose|i: int|
                0 <= i < s.len() && s[i] == c && forall|j: int| i < j < s.len() ==> s[j] != c,
        )
    } else {
        None
    }
}

/// The first occurrence of `c` is at `i` when `s[i]` is `c` and no
/// earlier character is.
pub proof fn lemma_first_index_at(s: Seq<char>, c: char, i: int)
    requires
        0 <= i < s.len(),
        s[i] == c,
        forall|j: int| 0 <= j < i ==> s[j] != c,
    ensures
        first_index(s, c) == Some(i),
{
    reveal(first_index);
    let w = choose|w: int| 0 <= w < s.len() && s[w] == c && forall|j: int| 0 <= j < w ==> s[j] != c;
    assert(0 <= w < s.len() && s[w] == c && forall|j: int| 0 <= j < w ==> s[j] != c);
    if w < i {
        assert(s[w] != c);
    } else if w > i {
        assert(s[i] != c);
    }
}

/// The last occurrence of `c` is at `i` when `s[i]` is `c` and no later
/// character is.
pub proof fn lemma_last_index_at(s: Seq<char>, c: char, i: int)
    requires
        0 <= i < s.len(),
        s[i] == c,
        forall|j: int| i < j < s.len() ==> s[j] != c,
    ensures
        last_index(s, c) == Some(i),
{
    reveal(last_index);
    let w = choose|w: int| 0 <= w < s.len() && s[w] == c && forall|j: int| w < j < s.len() ==> s[j] != c;
    assert(0 <= w < s.len() && s[w] == c && forall|j: int| w < j < s.len() ==> s[j] != c);
    if w < i {
        assert(s[i] != c);
    } else if w > i {
        assert(s[w] != c);
    }
}

pub fn find_char(s: &str, c: char) -> (r: Option<usize>)
    ensures
        match r {
            Some(i) => first_index(s@, c) == Some(i as int) && i < s@.len() && s@[i as int] == c,
            None => first_index(s@, c) is None,
        },
{
    reveal(first_index);
    let n = s.unicode_len();
    let mut i: usize = 0;
    while i < n
        invariant
            n == s@.len(),
            0 <= i <= n,
            forall|j: int| 0 <= j < i ==> s@[j] != c,
        decreases n - i,
    {
        if s.get_char(i) == c {
            proof {
                reveal(first_index);
                let k = i as int;
                assert(0 <= k < s@.len() && s@[k] == c && forall|j: int| 0 <= j < k ==> s@[j] != c);
                let w = choose|w: int|
                    0 <= w < s@.len() && s@[w] == c && forall|j: int| 0 <= j < w ==> s@[j] != c;
                if w < k {
                } else if w > k {
                    assert(s@[k] != c);
                }
            }
            return Some(i);
        }
        i = i + 1;
    }
    None
}

pub fn rfind_char(s: &str, c: char) -> (r: Option<usize>)
    ensures
        match r {
            Some(i) => last_index(s@, c) == Some(i as int) && i < s@.len() && s@[i as int] == c,
            None => last_index(s@, c) is None,
        },
{
    reveal(last_index);
    let n = s.unicode_len();
    let mut i: usize = n;
    while i > 0
        invariant
            n == s@.len(),
            0 <= i <= n,
            forall|j: int| i <= j < n ==> s@[j] != c,
        decreases i,
    {
        if s.get_char(i - 1) == c {
            proof {
                reveal(last_index);
                let k = i - 1;
                assert(0 <= k < s@.len() && s@[k] == c && forall|j: int| k < j < s@.len() ==> s@[j]
                    != c);
                let w = choose|w: int|
                    0 <= w < s@.len() && s@[w] == c && forall|j: int| w < j < s@.len() ==> s@[j]
                        != c;
                if w < k {
                    assert(s@[k] != c);
                } else if w > k {
                }
            }
            return Some(i - 1);
        }
        i = i - 1;
    }
    None
}

/// Whether `c` occurs in `s`.
pub fn contains_char(s: &str, c: char) -> (r: bool)
    ensures
        r == s@.contains(c),
{
    match find_char(s, c) {
        Some(_) => true,
        None => {
            reveal(first_index);
            assert(!s@.contains(c));
            false
        },
    }
}

// ---------------------------------------------------------------------
// Ordering (the order of `String`s)
// ---------------------------------------------------------------------

/// Lexicographic order on characters: the order `String`s compare in.
pub open spec fn lex_lt(a: Seq<char>, b: Seq<char>) -> bool
    decreases a.len(),
{
    if b.len() == 0 {
        false
    } else if a.len() == 0 {
        true
    } else if a[0] != b[0] {
        (a[0] as int) < (b[0] as int)
    } else {
        lex_lt(a.drop_first(), b.drop_first())
    }
}

pub open spec fn lex_le(a: Seq<char>, b: Seq<char>) -> bool {
    !lex_lt(b, a)
}

pub proof fn lemma_lex_trichotomy(a: Seq<char>, b: Seq<char>)
    ensures
        lex_lt(a, b) || lex_lt(b, a) || a == b,
        !(lex_lt(a, b) && lex_lt(b, a)),
    decreases a.len(),
{
    if a.len() > 0 && b.len() > 0 && a[0] == b[0] {
        lemma_lex_trichotomy(a.drop_first(), b.drop_first());
        if a.drop_first() == b.drop_first() {
            assert(a =~= seq![a[0]] + a.drop_first());
            assert(b =~= seq![b[0]] + b.drop_first());
        }
    } else if a.len() == 0 && b.len() == 0 {
        assert(a =~= b);
    } else if a.len() > 0 && b.len() > 0 {
        assert((a[0] as int) != (b[0] as int));
    }
}

pub proof fn lemma_lex_lt_transitive(a: Seq<char>, b: Seq<char>, c: Seq<char>)
    requires
        lex_lt(a, b),
        lex_lt(b, c),
    ensures
        lex_lt(a, c),
    decreases a.len(),
{
    if a.len() > 0 && b.len() > 0 && c.len() > 0 {
        if a[0] == b[0] && b[0] == c[0] {
            lemma_lex_lt_transitive(a.drop_first(), b.drop_first(), c.drop_first());
        }
    }
}

pub proof fn lemma_lex_le_transitive(a: Seq<char>, b: Seq<char>, c: Seq<char>)
    requires
        lex_le(a, b),
        lex_le(b, c),
    ensures
        lex_le(a, c),
{
    if lex_lt(c, a) {
        lemma_lex_trichotomy(a, b);
        if lex_lt(a, b) {
            lemma_lex_lt_transitive(c, a, b);
        }
    }
}

pub proof fn lemma_lex_total(a: Seq<char>, b: Seq<char>)
    ensures
        lex_le(a, b) || lex_le(b, a),
        lex_lt(a, b) ==> lex_le(a, b),
{
    lemma_lex_trichotomy(a, b);
}

proof fn lemma_lex_lt_skip(a: Seq<char>, b: Seq<char>, i: int)
    requires
        0 <= i <= a.len(),
        i <= b.len(),
        a.take(i) == b.take(i),
    ensures
        lex_lt(a, b) == lex_lt(a.skip(i), b.skip(i)),
    decreases i,
{
    if i > 0 {
        assert(a[0] == a.take(i)[0]);
        assert(b[0] == b.take(i)[0]);
        assert(a.drop_first().take(i - 1) =~= a.take(i).drop_first());
        assert(b.drop_first().take(i - 1) =~= b.take(i).drop_first());
        lemma_lex_lt_skip(a.drop_first(), b.drop_first(), i - 1);
        assert(a.drop_first().skip(i - 1) =~= a.skip(i));
        assert(b.drop_first().skip(i - 1) =~= b.skip(i));
    } else {
        assert(a.skip(0) =~= a);
        assert(b.skip(0) =~= b);
    }
}

/// `a < b` as `String`s compare.
pub fn str_lt(a: &str, b: &str) -> (r: bool)
    ensures
        r == lex_lt(a@, b@),
{
    let n = a.unicode_len();
    let m = b.unicode_len();
    let mut i: usize = 0;
    while i < n && i < m
        invariant
            n == a@.len(),
            m == b@.len(),
            0 <= i <= n,
            i <= m,
            a@.take(i as int) == b@.take(i as int),
        decreases n - i,
    {
        let x = a.get_char(i);
        let y = b.get_char(i);
        if x != y {
            proof {
                lemma_lex_lt_skip(a@, b@, i as int);
                assert(a@.skip(i as int)[0] == x);
                assert(b@.skip(i as int)[0] == y);
            }
            return (x as u32) < (y as u32);
        }
        proof {
            assert(a@.take(i as int + 1) =~= a@.take(i as int).push(x));
            assert(b@.take(i as int + 1) =~= b@.take(i as int).push(y));
        }
        i = i + 1;
    }
    proof {
        lemma_lex_lt_skip(a@, b@, i as int);
    }
    i == n && i < m
}

} // verus!
