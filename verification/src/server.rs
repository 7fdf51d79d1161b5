// Request handling for the video HTTP server: a strict request-line parser,
// query lookup with percent-decoding, the pairing-token check, and the
// routing decision. The socket loop that feeds these lives outside the
// library; every decision it acts on is made here.
use vstd::prelude::*;
use vstd::utf8::*;

use crate::mjpeg::{text_response, text_response_text};
use crate::text::{chars_of, find_char, first_index, lemma_first_index, push_char, str_eq, string_of};

verus! {

/// Parsed request line: method, path, and the raw query string.
#[derive(Debug, PartialEq, Eq)]
pub struct Request {
    pub method: String,
    pub path: String,
    pub query: String,
}

/// White space as std's `char::is_whitespace` defines it (the Unicode
/// `White_Space` property).
pub open spec fn is_ws(c: char) -> bool {
    let u = c as u32;
    (9 <= u <= 13) || u == 32 || u == 0x85 || u == 0xA0 || u == 0x1680 || (0x2000 <= u
        <= 0x200A) || u == 0x2028 || u == 0x2029 || u == 0x202F || u == 0x205F || u == 0x3000
}

fn is_whitespace(c: char) -> (r: bool)
    ensures
        r == is_ws(c),
{
    let u = c as u32;
    (9 <= u && u <= 13) || u == 32 || u == 0x85 || u == 0xA0 || u == 0x1680 || (0x2000 <= u && u
        <= 0x200A) || u == 0x2028 || u == 0x2029 || u == 0x202F || u == 0x205F || u == 0x3000
}

/// The first line of a request head, as std's `str::lines` yields it: the
/// text before the first `\n` with one `\r` removed from its end when a
/// `\n` followed; the whole text when there is no `\n`; none for empty text.
pub open spec fn first_line(s: Seq<char>) -> Option<Seq<char>> {
    if s.len() == 0 {
        None
    } else {
        match first_index(s, '\n') {
            None => Some(s),
            Some(i) => {
                let l = s.take(i as int);
                if l.len() > 0 && l.last() == '\r' {
                    Some(l.drop_last())
                } else {
                    Some(l)
                }
            },
        }
    }
}

/// End of the run of non-whitespace characters starting at `i`.
pub open spec fn word_end(s: Seq<char>, i: nat) -> nat
    decreases s.len() - i,
{
    if i >= s.len() || is_ws(s[i as int]) {
        i
    } else {
        word_end(s, i + 1)
    }
}

pub proof fn lemma_word_end(s: Seq<char>, i: nat)
    ensures
        i <= word_end(s, i),
        i < s.len() ==> word_end(s, i) <= s.len(),
        i < s.len() && !is_ws(s[i as int]) ==> word_end(s, i) > i,
        forall|j: int| i <= j < word_end(s, i) ==> !is_ws(#[trigger] s[j]),
        word_end(s, i) < s.len() ==> is_ws(s[word_end(s, i) as int]),
    decreases s.len() - i,
{
    if !(i >= s.len() || is_ws(s[i as int])) {
        lemma_word_end(s, i + 1);
    }
}

/// The whitespace-separated words of `s` from position `i` on, as std's
/// `str::split_whitespace` yields them.
pub open spec fn words_from(s: Seq<char>, i: nat) -> Seq<Seq<char>>
    decreases s.len() - i,
{
    if i >= s.len() {
        Seq::empty()
    } else if is_ws(s[i as int]) {
        words_from(s, i + 1)
    } else {
        let e = word_end(s, i);
        proof {
            lemma_word_end(s, i);
        }
        seq![s.subrange(i as int, e as int)] + words_from(s, e)
    }
}

/// `s` split at its first `c`; `(s, "")` when there is none.
pub open spec fn split_once(s: Seq<char>, c: char) -> (Seq<char>, Seq<char>) {
    match first_index(s, c) {
        Some(i) => (s.take(i as int), s.skip(i + 1 as int)),
        None => (s, Seq::empty()),
    }
}

/// The request line's method, path and query, or the message for a
/// malformed head.
pub open spec fn request_line(head: Seq<char>) -> Result<
    (Seq<char>, Seq<char>, Seq<char>),
    Seq<char>,
> {
    match first_line(head) {
        None => Err("empty request"@),
        Some(l) => {
            let w = words_from(l, 0);
            if w.len() == 0 {
                Err("no method"@)
            } else if w.len() == 1 {
                Err("no target"@)
            } else if w.len() == 2 {
                Err("no HTTP version"@)
            } else {
                let (path, query) = split_once(w[1], '?');
                Ok((w[0], path, query))
            }
        },
    }
}

/// The next word at or after `i`: its bounds, and the words from `i` are
/// that word followed by the words after it.
fn next_word(l: &Vec<char>, i: usize) -> (r: Option<(usize, usize)>)
    requires
        i <= l@.len(),
    ensures
        match r {
            None => words_from(l@, i as nat).len() == 0,
            Some((a, b)) => {
                &&& i <= a < b <= l@.len()
                &&& words_from(l@, i as nat) == seq![l@.subrange(a as int, b as int)]
                    + words_from(l@, b as nat)
            },
        },
{
    let mut a = i;
    while a < l.len() && is_whitespace(l[a])
        invariant
            i <= a <= l@.len(),
            words_from(l@, i as nat) == words_from(l@, a as nat),
        decreases l.len() - a,
    {
        a = a + 1;
    }
    if a == l.len() {
        return None;
    }
    let mut b = a + 1;
    proof {
        lemma_word_end(l@, a as nat);
    }
    while b < l.len() && !is_whitespace(l[b])
        invariant
            a < b <= l@.len(),
            a < l@.len(),
            !is_ws(l@[a as int]),
            word_end(l@, a as nat) == word_end(l@, b as nat),
        decreases l.len() - b,
    {
        b = b + 1;
    }
    Some((a, b))
}

/// Parse the request line out of a raw HTTP head.
///
/// # Errors
/// Returns a message when the head is not a well-formed request line.
pub fn parse_request(head: &str) -> (res: Result<Request, String>)
    ensures
        match request_line(head@) {
            Ok((m, p, q)) => res matches Ok(r) && r.method@ == m && r.path@ == p && r.query@ == q,
            Err(e) => res matches Err(msg) && msg@ == e,
        },
{
    let c = chars_of(head);
    if c.len() == 0 {
        return Err(String::from_str("empty request"));
    }
    proof {
        lemma_first_index(c@, '\n');
        assert(c@.skip(0) =~= c@);
    }
    let line_end: usize = match find_char(&c, 0, '\n') {
        Some(n) => {
            if n > 0 && c[n - 1] == '\r' {
                n - 1
            } else {
                n
            }
        },
        None => c.len(),
    };
    let ghost l = c@.take(line_end as int);
    assert(first_line(head@) == Some(l)) by {
        match first_index(c@, '\n') {
            Some(n) => {
                let t = c@.take(n as int);
                if t.len() > 0 && t.last() == '\r' {
                    assert(line_end == n - 1);
                    assert(t.drop_last() =~= l);
                } else {
                    assert(t =~= l);
                }
            },
            None => {
                assert(c@ =~= l);
            },
        }
    }
    let line = string_of(&c, 0, line_end);
    let lc = chars_of(line.as_str());
    assert(lc@ =~= l);
    let (m0, m1) = match next_word(&lc, 0) {
        None => {
            return Err(String::from_str("no method"));
        },
        Some(w) => w,
    };
    let (t0, t1) = match next_word(&lc, m1) {
        None => {
            return Err(String::from_str("no target"));
        },
        Some(w) => w,
    };
    match next_word(&lc, t1) {
        None => {
            return Err(String::from_str("no HTTP version"));
        },
        Some(_) => {},
    }
    let ghost w = words_from(l, 0);
    assert(w[0] == l.subrange(m0 as int, m1 as int));
    assert(w[1] == l.subrange(t0 as int, t1 as int));
    let method = string_of(&lc, m0, m1);
    let target = string_of(&lc, t0, t1);
    let tc = chars_of(target.as_str());
    proof {
        lemma_first_index(tc@, '?');
    }
    match find_char(&tc, 0, '?') {
        Some(q) => {
            assert(tc@.skip(0) =~= tc@);
            let path = string_of(&tc, 0, q);
            let query = string_of(&tc, q + 1, tc.len());
            assert(tc@.take(q as int) =~= path@);
            assert(tc@.skip(q + 1) =~= query@);
            Ok(Request { method, path, query })
        },
        None => {
            assert(tc@.skip(0) =~= tc@);
            Ok(Request { method, path: target, query: String::new() })
        },
    }
}

/// `s` split at every `c`, as std's `str::split` yields it (an empty text
/// gives one empty piece).
pub open spec fn split_on(s: Seq<char>, c: char) -> Seq<Seq<char>>
    decreases s.len(),
{
    match first_index(s, c) {
        None => seq![s],
        Some(i) => {
            proof {
                lemma_first_index(s, c);
            }
            seq![s.take(i as int)] + split_on(s.skip(i + 1 as int), c)
        },
    }
}

/// The raw value of the first `key=value` piece whose key is `key`. Pieces
/// without `=` are skipped.
pub open spec fn find_param(pieces: Seq<Seq<char>>, key: Seq<char>) -> Option<Seq<char>>
    decreases pieces.len(),
{
    if pieces.len() == 0 {
        None
    } else {
        let (k, v) = split_once(pieces[0], '=');
        if first_index(pieces[0], '=') is Some && k == key {
            Some(v)
        } else {
            find_param(pieces.drop_first(), key)
        }
    }
}

/// Name for what std's `String::from_utf8_lossy` returns: the bytes decoded
/// as UTF-8, each invalid sequence replaced by U+FFFD.
pub uninterp spec fn utf8_lossy(bytes: Seq<u8>) -> Seq<char>;

/// std's `String::from_utf8_lossy(..).into_owned()`. As std documents,
/// valid UTF-8 comes back unchanged.
#[verifier::external_body]
fn string_from_utf8_lossy(bytes: &[u8]) -> (s: String)
    ensures
        s@ == utf8_lossy(bytes@),
        valid_utf8(bytes@) ==> s@ == decode_utf8(bytes@),
{
    String::from_utf8_lossy(bytes).into_owned()
}

/// Value of an ASCII hex digit.
pub open spec fn hex_value(b: u8) -> Option<u8> {
    if 48 <= b <= 57 {
        Some((b - 48) as u8)
    } else if 97 <= b <= 102 {
        Some((b - 87) as u8)
    } else if 65 <= b <= 70 {
        Some((b - 55) as u8)
    } else {
        None
    }
}

/// The byte a `%XX` escape stands for: the two bytes after the `%` must
/// both be hex digits; anything else is no escape.
pub open spec fn escape_value(b1: u8, b2: u8) -> Option<u8> {
    match (hex_value(b1), hex_value(b2)) {
        (Some(h), Some(l)) => Some((h * 16 + l) as u8),
        _ => None,
    }
}

/// Percent-decoding of bytes from position `i` on: `%XX` escapes with two
/// bytes after the `%` become one byte, `+` becomes a space, anything else
/// (including a malformed escape) stays literal.
pub open spec fn unescape_from(b: Seq<u8>, i: nat) -> Seq<u8>
    decreases b.len() - i,
{
    if i >= b.len() {
        Seq::empty()
    } else if b[i as int] == 37 && i + 2 < b.len() && escape_value(b[i + 1 as int], b[i + 2 as int])
        is Some {
        seq![escape_value(b[i + 1 as int], b[i + 2 as int]).unwrap()] + unescape_from(b, i + 3)
    } else if b[i as int] == 43 {
        seq![32u8] + unescape_from(b, i + 1)
    } else {
        seq![b[i as int]] + unescape_from(b, i + 1)
    }
}

/// The ASCII code of the hex digit for a value below 16, in upper or lower
/// case.
pub open spec fn hex_digit_code(d: nat, upper: bool) -> nat {
    if d < 10 {
        48 + d
    } else if upper {
        55 + d
    } else {
        87 + d
    }
}

/// A `%` followed by the two hex digits of a byte, each in either case,
/// decodes to that byte, and decoding goes on right after the escape.
pub proof fn law_percent_escape_gives_its_byte(
    b: Seq<u8>,
    i: nat,
    v: u8,
    upper_hi: bool,
    upper_lo: bool,
)
    requires
        i + 2 < b.len(),
        b[i as int] == 37,
        b[i + 1 as int] as nat == hex_digit_code(v as nat / 16, upper_hi),
        b[i + 2 as int] as nat == hex_digit_code(v as nat % 16, upper_lo),
    ensures
        unescape_from(b, i) == seq![v] + unescape_from(b, i + 3),
{
    let hi = v as nat / 16;
    let lo = v as nat % 16;
    assert(hex_value(b[i + 1 as int]) == Some(hi as u8));
    assert(hex_value(b[i + 2 as int]) == Some(lo as u8));
    assert(hi * 16 + lo == v) by {
        vstd::arithmetic::div_mod::lemma_fundamental_div_mod(v as int, 16);
    }
}

/// A `%` not followed by two hex digits stays a literal `%`, a `+` becomes
/// a space, and any other byte is kept as it is.
pub proof fn law_percent_literals(b: Seq<u8>, i: nat)
    requires
        i < b.len(),
    ensures
        b[i as int] == 37 && (i + 2 >= b.len() || !(is_hex_code(b[i + 1 as int]) && is_hex_code(
            b[i + 2 as int],
        ))) ==> unescape_from(b, i) == seq![37u8] + unescape_from(b, i + 1),
        b[i as int] == 43 ==> unescape_from(b, i) == seq![32u8] + unescape_from(b, i + 1),
        b[i as int] != 37 && b[i as int] != 43 ==> unescape_from(b, i) == seq![b[i as int]]
            + unescape_from(b, i + 1),
{
}

/// An ASCII hex digit, `0`-`9`, `a`-`f` or `A`-`F`.
pub open spec fn is_hex_code(c: u8) -> bool {
    (48 <= c <= 57) || (97 <= c <= 102) || (65 <= c <= 70)
}

/// The bytes that percent-decoding a text gives, before they are read back
/// as UTF-8.
pub open spec fn unescaped_bytes(s: Seq<char>) -> Seq<u8> {
    unescape_from(encode_utf8(s), 0)
}

/// What `percent_decode` returns for a text.
pub open spec fn percent_decoded(s: Seq<char>) -> Seq<char> {
    utf8_lossy(unescaped_bytes(s))
}

fn hex_digit(b: u8) -> (r: Option<u8>)
    ensures
        r == hex_value(b),
{
    if 48 <= b && b <= 57 {
        Some(b - 48)
    } else if 97 <= b && b <= 102 {
        Some(b - 87)
    } else if 65 <= b && b <= 70 {
        Some(b - 55)
    } else {
        None
    }
}

fn escaped_byte(b1: u8, b2: u8) -> (r: Option<u8>)
    ensures
        r == escape_value(b1, b2),
{
    match (hex_digit(b1), hex_digit(b2)) {
        (Some(h), Some(l)) => Some(h * 16 + l),
        _ => None,
    }
}

/// Text with no `%` and no `+`: nothing for percent-decoding to change.
pub open spec fn plain_text(s: Seq<char>) -> bool {
    forall|j: int| 0 <= j < s.len() ==> #[trigger] s[j] != '%' && s[j] != '+'
}

proof fn lemma_scalar_bytes_plain(c: char)
    requires
        c != '%' && c != '+',
    ensures
        forall|k: int|
            0 <= k < encode_scalar(c as u32).len() ==> #[trigger] encode_scalar(c as u32)[k] != 37
                && encode_scalar(c as u32)[k] != 43,
{
    let v = c as u32;
    if has_width_1_encoding(v) {
        assert((v & 0x7F) == v) by (bit_vector)
            requires
                v <= 0x7F,
        ;
    } else {
        let x1 = ((v >> 6) & 0x1F) as u8;
        let x2 = ((v >> 12) & 0x0F) as u8;
        let x3 = ((v >> 18) & 0x7) as u8;
        let y1 = (v & 0x3F) as u8;
        let y2 = ((v >> 6) & 0x3F) as u8;
        let y3 = ((v >> 12) & 0x3F) as u8;
        assert((0xC0u8 | x1) >= 0x80 && (0xE0u8 | x2) >= 0x80 && (0xF0u8 | x3) >= 0x80) by (bit_vector);
        assert((0x80u8 | y1) >= 0x80 && (0x80u8 | y2) >= 0x80 && (0x80u8 | y3) >= 0x80) by (bit_vector);
    }
}

proof fn lemma_encode_plain(s: Seq<char>)
    requires
        plain_text(s),
    ensures
        forall|k: int|
            0 <= k < encode_utf8(s).len() ==> #[trigger] encode_utf8(s)[k] != 37 && encode_utf8(
                s,
            )[k] != 43,
    decreases s.len(),
{
    if s.len() > 0 {
        let rest = s.drop_first();
        assert forall|j: int| 0 <= j < rest.len() implies #[trigger] rest[j] != '%' && rest[j] != '+' by {
            assert(rest[j] == s[j + 1]);
        }
        lemma_encode_plain(rest);
        assert(s[0] != '%' && s[0] != '+');
        lemma_scalar_bytes_plain(s[0]);
        let head = encode_scalar(s[0] as u32);
        assert(encode_utf8(s) == head + encode_utf8(rest));
        assert forall|k: int| 0 <= k < encode_utf8(s).len() implies #[trigger] encode_utf8(s)[k]
            != 37 && encode_utf8(s)[k] != 43 by {
            if k < head.len() {
                assert(encode_utf8(s)[k] == head[k]);
            } else {
                assert(encode_utf8(s)[k] == encode_utf8(rest)[k - head.len()]);
            }
        }
    }
}

proof fn lemma_unescape_plain(b: Seq<u8>, i: nat)
    requires
        i <= b.len(),
        forall|k: int| 0 <= k < b.len() ==> #[trigger] b[k] != 37 && b[k] != 43,
    ensures
        unescape_from(b, i) == b.skip(i as int),
    decreases b.len() - i,
{
    if i < b.len() {
        lemma_unescape_plain(b, i + 1);
        assert(b.skip(i as int) =~= seq![b[i as int]] + b.skip(i + 1 as int));
    } else {
        assert(b.skip(i as int) =~= Seq::<u8>::empty());
    }
}

/// Decode `%XX` escapes and `+`. Enough for tokens in a query string.
/// Text with neither comes back unchanged.
pub fn percent_decode(s: &str) -> (r: String)
    ensures
        r@ == percent_decoded(s@),
        valid_utf8(unescaped_bytes(s@)) ==> r@ == decode_utf8(unescaped_bytes(s@)),
        plain_text(s@) ==> r@ == s@,
{
    let b = s.as_bytes();
    let mut out: Vec<u8> = Vec::new();
    let mut i: usize = 0;
    while i < b.len()
        invariant
            b@ == encode_utf8(s@),
            i <= b@.len(),
            out@ + unescape_from(b@, i as nat) == unescape_from(b@, 0),
        decreases b.len() - i,
    {
        let ghost before = out@;
        if b[i] == 37 && b.len() - i > 2 {
            match escaped_byte(b[i + 1], b[i + 2]) {
                Some(v) => {
                    out.push(v);
                    assert(out@ + unescape_from(b@, (i + 3) as nat) =~= before + unescape_from(
                        b@,
                        i as nat,
                    ));
                    i = i + 3;
                    continue ;
                },
                None => {},
            }
        }
        if b[i] == 43 {
            out.push(32);
        } else {
            out.push(b[i]);
        }
        assert(out@ + unescape_from(b@, (i + 1) as nat) =~= before + unescape_from(b@, i as nat));
        i = i + 1;
    }
    assert(out@ =~= unescape_from(b@, 0));
    proof {
        if plain_text(s@) {
            lemma_encode_plain(s@);
            lemma_unescape_plain(b@, 0);
            assert(b@.skip(0) =~= b@);
            encode_utf8_valid_utf8(s@);
            encode_utf8_decode_utf8(s@);
        }
    }
    string_from_utf8_lossy(out.as_slice())
}

/// The decoded value of `key` in a query string: the first `key=value`
/// piece between `&`s.
pub open spec fn query_value(query: Seq<char>, key: Seq<char>) -> Option<Seq<char>> {
    match find_param(split_on(query, '&'), key) {
        Some(v) => Some(percent_decoded(v)),
        None => None,
    }
}

/// Look up a key in an `a=b&c=d` query string, percent-decoding minimally.
pub fn query_param(query: &str, key: &str) -> (r: Option<String>)
    ensures
        match query_value(query@, key@) {
            Some(v) => r matches Some(s) && s@ == v,
            None => r is None,
        },
        find_param(split_on(query@, '&'), key@) matches Some(raw) ==> (valid_utf8(
            unescaped_bytes(raw),
        ) ==> (r matches Some(s) && s@ == decode_utf8(unescaped_bytes(raw)))),
{
    let q = chars_of(query);
    let mut start: usize = 0;
    assert(q@.skip(0) =~= q@);
    loop
        invariant
            q@ == query@,
            start <= q@.len(),
            find_param(split_on(query@, '&'), key@) == find_param(
                split_on(q@.skip(start as int), '&'),
                key@,
            ),
        decreases q@.len() - start,
    {
        let ghost rest = q@.skip(start as int);
        proof {
            lemma_first_index(rest, '&');
        }
        let found = find_char(&q, start, '&');
        let end: usize = match found {
            Some(e) => e,
            None => q.len(),
        };
        assert(start <= end <= q@.len());
        assert(found is Some ==> first_index(rest, '&') == Some((end - start) as nat));
        assert(found is None ==> first_index(rest, '&') is None);
        let piece = string_of(&q, start, end);
        let pc = chars_of(piece.as_str());
        assert(split_on(rest, '&')[0] == pc@) by {
            match first_index(rest, '&') {
                Some(i) => {
                    assert(rest.take(i as int) =~= pc@);
                },
                None => {
                    assert(rest =~= pc@);
                },
            }
        }
        proof {
            lemma_first_index(pc@, '=');
            assert(pc@.skip(0) =~= pc@);
        }
        match find_char(&pc, 0, '=') {
            Some(e) => {
                let k = string_of(&pc, 0, e);
                assert(pc@.take(e as int) =~= k@);
                if str_eq(k.as_str(), key) {
                    let v = string_of(&pc, e + 1, pc.len());
                    assert(pc@.skip(e + 1) =~= v@);
                    return Some(percent_decode(v.as_str()));
                }
            },
            None => {},
        }
        assert(!(first_index(pc@, '=') is Some && split_once(pc@, '=').0 == key@));
        assert(find_param(split_on(rest, '&'), key@) == find_param(
            split_on(rest, '&').drop_first(),
            key@,
        ));
        if end >= q.len() {
            assert(first_index(rest, '&') is None);
            assert(split_on(rest, '&').drop_first().len() == 0);
            return None;
        }
        assert(rest.skip(end - start + 1) =~= q@.skip(end + 1));
        assert(split_on(rest, '&').drop_first() =~= split_on(q@.skip(end + 1), '&'));
        start = end + 1;
    }
}

/// Whether a request's token is accepted: an empty expected token is the
/// loopback/dev mode and accepts anything; otherwise the provided token must
/// equal it exactly.
pub open spec fn token_accepted(expected: Seq<char>, provided: Option<Seq<char>>) -> bool {
    expected.len() == 0 || provided == Some(expected)
}

/// Constant-time-ish token comparison. Tokens are short and this is a LAN
/// service, but it still avoids leaking the token's length or a matching
/// prefix through an early return: every byte of the expected token is
/// visited whatever was provided, and a length mismatch is only folded into
/// the result at the end.
pub fn token_ok(expected: &str, provided: Option<&str>) -> (r: bool)
    ensures
        r == token_accepted(expected@, match provided {
            Some(p) => Some(p@),
            None => None,
        }),
{
    if expected.is_empty() {
        return true;
    }
    let got = match provided {
        Some(g) => g,
        None => {
            return false;
        },
    };
    let gb = got.as_bytes();
    let eb = expected.as_bytes();
    proof {
        vstd::utf8::encode_utf8_decode_utf8(got@);
        vstd::utf8::encode_utf8_decode_utf8(expected@);
    }
    let glen = gb.len();
    let elen = eb.len();
    let mut acc: u8 = 0;
    let mut i: usize = 0;
    while i < elen
        invariant
            gb@ == encode_utf8(got@),
            eb@ == encode_utf8(expected@),
            glen == gb@.len(),
            elen == eb@.len(),
            i <= elen,
            acc == 0 <==> forall|j: int| 0 <= j < i ==> j < glen && gb@[j] == eb@[j],
        decreases elen - i,
    {
        let b = eb[i];
        let x: u8 = if i < glen {
            gb[i] ^ b
        } else {
            0xFF
        };
        assert(x == 0 <==> (i < glen && gb@[i as int] == b)) by {
            if i < glen {
                let a = gb@[i as int];
                assert((a ^ b) == 0u8 <==> a == b) by (bit_vector);
            }
        }
        let next: u8 = acc | x;
        assert(next == 0 <==> (acc == 0 && x == 0)) by (bit_vector)
            requires
                next == acc | x,
        ;
        acc = next;
        i = i + 1;
    }
    let same_len = glen == elen;
    if acc == 0 && same_len {
        assert(gb@ =~= eb@);
        true
    } else {
        proof {
            if gb@ =~= eb@ {
                assert(forall|j: int| 0 <= j < elen ==> j < glen && gb@[j] == eb@[j]);
            }
        }
        false
    }
}

/// Cap on the request head that is buffered; a client sending more than
/// this is not a viewer worth serving.
pub const MAX_HEAD: usize = 8 * 1024;

/// The blank line `\r\n\r\n` occurs in `buf`.
pub open spec fn has_blank_line(buf: Seq<u8>) -> bool {
    exists|i: int|
        0 <= i && i + 4 <= buf.len() && #[trigger] buf[i] == 13 && buf[i + 1] == 10 && buf[i + 2]
            == 13 && buf[i + 3] == 10
}

/// Whether enough of the request head has arrived to act on it: the head
/// is complete, or it has grown past `MAX_HEAD`.
pub fn head_complete(buf: &[u8]) -> (r: bool)
    ensures
        r == (has_blank_line(buf@) || buf@.len() > MAX_HEAD),
{
    let n = buf.len();
    let mut i: usize = 0;
    while n >= 4 && i <= n - 4
        invariant
            n == buf@.len(),
            i <= n,
            forall|j: int|
                0 <= j < i && j + 4 <= n ==> !(#[trigger] buf@[j] == 13 && buf@[j + 1] == 10
                    && buf@[j + 2] == 13 && buf@[j + 3] == 10),
        decreases n - i,
    {
        if buf[i] == 13 && buf[i + 1] == 10 && buf[i + 2] == 13 && buf[i + 3] == 10 {
            return true;
        }
        i = i + 1;
    }
    n > MAX_HEAD
}

/// What the server does with a request.
#[derive(Debug, Clone, Copy, PartialEq, Eq)]
pub enum Route {
    /// 400: the head is not a well-formed request line.
    BadRequest,
    /// 405: anything but GET.
    MethodNotAllowed,
    /// `/health`: open on purpose, it exposes no pixels.
    Health,
    /// 401: a pixel route without the pairing token.
    Unauthorized,
    /// `/frame.jpg`: one JPEG snapshot.
    Frame,
    /// `/video.mjpg`: the multipart stream.
    Stream,
    /// 404: any other path.
    NotFound,
}

/// The route for a request head, given the configured pairing token.
/// Everything but `/health` streams desktop pixels and needs the token.
pub open spec fn route_for(head: Seq<char>, token: Seq<char>) -> Route {
    match request_line(head) {
        Err(_) => Route::BadRequest,
        Ok((method, path, query)) => if method != "GET"@ {
            Route::MethodNotAllowed
        } else if path == "/health"@ {
            Route::Health
        } else if !token_accepted(token, query_value(query, "token"@)) {
            Route::Unauthorized
        } else if path == "/frame.jpg"@ {
            Route::Frame
        } else if path == "/video.mjpg"@ {
            Route::Stream
        } else {
            Route::NotFound
        },
    }
}

/// Decides what to do with a raw request head (decoded leniently as UTF-8).
pub fn route_request(head: &[u8], token: &str) -> (r: Route)
    ensures
        r == route_for(utf8_lossy(head@), token@),
        (r == Route::Frame || r == Route::Stream) ==> token_accepted(
            token@,
            match request_line(utf8_lossy(head@)) {
                Ok((_, _, query)) => query_value(query, "token"@),
                Err(_) => None,
            },
        ),
{
    let text = string_from_utf8_lossy(head);
    let req = match parse_request(text.as_str()) {
        Ok(r) => r,
        Err(_) => {
            return Route::BadRequest;
        },
    };
    if !str_eq(req.method.as_str(), "GET") {
        return Route::MethodNotAllowed;
    }
    if str_eq(req.path.as_str(), "/health") {
        return Route::Health;
    }
    let provided = query_param(req.query.as_str(), "token");
    let accepted = match &provided {
        Some(p) => token_ok(token, Some(p.as_str())),
        None => token_ok(token, None),
    };
    if !accepted {
        return Route::Unauthorized;
    }
    if str_eq(req.path.as_str(), "/frame.jpg") {
        Route::Frame
    } else if str_eq(req.path.as_str(), "/video.mjpg") {
        Route::Stream
    } else {
        Route::NotFound
    }
}

/// The fixed JSON reply of a route that answers with an error, if it does.
pub open spec fn route_reply_text(route: Route) -> Option<Seq<char>> {
    match route {
        Route::BadRequest => Some(
            text_response_text(
                400,
                "Bad Request"@,
                "application/json"@,
                "{\"error\":\"bad request\"}"@,
                "{\"error\":\"bad request\"}".len() as nat,
            ),
        ),
        Route::MethodNotAllowed => Some(
            text_response_text(
                405,
                "Method Not Allowed"@,
                "application/json"@,
                "{\"error\":\"GET only\"}"@,
                "{\"error\":\"GET only\"}".len() as nat,
            ),
        ),
        Route::Unauthorized => Some(
            text_response_text(
                401,
                "Unauthorized"@,
                "application/json"@,
                "{\"error\":\"pairing token required\"}"@,
                "{\"error\":\"pairing token required\"}".len() as nat,
            ),
        ),
        Route::NotFound => Some(
            text_response_text(
                404,
                "Not Found"@,
                "application/json"@,
                "{\"error\":\"not found\"}"@,
                "{\"error\":\"not found\"}".len() as nat,
            ),
        ),
        _ => None,
    }
}

/// The complete reply for a route that answers with a fixed error;
/// `None` for the routes that serve health or pixels.
pub fn route_reply(route: Route) -> (r: Option<String>)
    ensures
        match route_reply_text(route) {
            Some(t) => r matches Some(s) && s@ == t,
            None => r is None,
        },
{
    match route {
        Route::BadRequest => Some(
            text_response(400, "Bad Request", "application/json", "{\"error\":\"bad request\"}"),
        ),
        Route::MethodNotAllowed => Some(
            text_response(405, "Method Not Allowed", "application/json", "{\"error\":\"GET only\"}"),
        ),
        Route::Unauthorized => Some(
            text_response(
                401,
                "Unauthorized",
                "application/json",
                "{\"error\":\"pairing token required\"}",
            ),
        ),
        Route::NotFound => Some(
            text_response(404, "Not Found", "application/json", "{\"error\":\"not found\"}"),
        ),
        _ => None,
    }
}

/// The reply when a frame was asked for but none arrived in time.
pub fn no_frame_reply() -> (r: String)
    ensures
        r@ == text_response_text(
            503,
            "Service Unavailable"@,
            "application/json"@,
            "{\"error\":\"no frame yet\"}"@,
            "{\"error\":\"no frame yet\"}".len() as nat,
        ),
{
    text_response(503, "Service Unavailable", "application/json", "{\"error\":\"no frame yet\"}")
}

} // verus!
