// Text inside JSON string literals: how the `/health` report writes free
// text (the capture source name, the codec, the last error) so that the
// object it builds stays one valid JSON object, and what a JSON reader
// takes back out of such a literal.
use vstd::prelude::*;

use crate::text::{chars_of, decimal, digit_char, first_index, lemma_first_index, push_char};

verus! {

/// The lower-case hex digit for a value below 16.
pub open spec fn hex_digit_char(n: nat) -> char {
    if n < 10 {
        (n + 48) as char
    } else {
        (n + 87) as char
    }
}

/// The value of a hex digit, in either case.
pub open spec fn hex_digit_value(c: char) -> Option<nat> {
    if '0' <= c <= '9' {
        Some((c as nat - 48) as nat)
    } else if 'a' <= c <= 'f' {
        Some((c as nat - 87) as nat)
    } else if 'A' <= c <= 'F' {
        Some((c as nat - 55) as nat)
    } else {
        None
    }
}

/// A control character (below U+0020), which JSON forbids raw inside a
/// string literal.
pub open spec fn is_control(c: char) -> bool {
    (c as nat) < 32
}

/// How one character is written inside a JSON string literal: `"` and `\`
/// behind a backslash, a control character as `\u00xx`, anything else as
/// itself.
pub open spec fn json_char(c: char) -> Seq<char> {
    if c == '"' || c == '\\' {
        seq!['\\', c]
    } else if is_control(c) {
        seq!['\\', 'u', '0', '0', hex_digit_char((c as nat) / 16), hex_digit_char((c as nat) % 16)]
    } else {
        seq![c]
    }
}

/// A text written as the body of a JSON string literal (without the
/// surrounding quotes).
pub open spec fn json_body(s: Seq<char>) -> Seq<char>
    decreases s.len(),
{
    if s.len() == 0 {
        Seq::empty()
    } else {
        json_char(s[0]) + json_body(s.skip(1))
    }
}

/// What a JSON reader takes out of the body of a string literal written
/// with the escapes `\"`, `\\` and `\u00XX`; `None` where the body is not
/// such a literal (a bare quote or control character, a dangling or other
/// escape).
pub open spec fn json_body_value(t: Seq<char>) -> Option<Seq<char>>
    decreases t.len(),
{
    if t.len() == 0 {
        Some(Seq::empty())
    } else if t[0] == '\\' {
        if t.len() >= 2 && (t[1] == '"' || t[1] == '\\') {
            match json_body_value(t.skip(2)) {
                Some(r) => Some(seq![t[1]] + r),
                None => None,
            }
        } else if t.len() >= 6 && t[1] == 'u' && t[2] == '0' && t[3] == '0' && hex_digit_value(
            t[4],
        ) is Some && hex_digit_value(t[5]) is Some {
            match json_body_value(t.skip(6)) {
                Some(r) => Some(
                    seq![
                        (hex_digit_value(t[4]).unwrap() * 16 + hex_digit_value(
                            t[5],
                        ).unwrap()) as char,
                    ] + r,
                ),
                None => None,
            }
        } else {
            None
        }
    } else if t[0] == '"' || is_control(t[0]) {
        None
    } else {
        match json_body_value(t.skip(1)) {
            Some(r) => Some(seq![t[0]] + r),
            None => None,
        }
    }
}

/// Writing a text piece by piece writes the whole text.
pub proof fn lemma_json_body_concat(a: Seq<char>, b: Seq<char>)
    ensures
        json_body(a + b) == json_body(a) + json_body(b),
    decreases a.len(),
{
    if a.len() == 0 {
        assert(a + b =~= b);
        assert(json_body(a) =~= Seq::<char>::empty());
        assert(json_body(a) + json_body(b) =~= json_body(b));
    } else {
        assert((a + b).skip(1) =~= a.skip(1) + b);
        assert((a + b)[0] == a[0]);
        lemma_json_body_concat(a.skip(1), b);
        assert(json_char(a[0]) + (json_body(a.skip(1)) + json_body(b)) =~= (json_char(a[0])
            + json_body(a.skip(1))) + json_body(b));
    }
}

/// The body of one character is that character's escape.
pub proof fn lemma_json_body_single(c: char)
    ensures
        json_body(seq![c]) == json_char(c),
{
    assert(seq![c].skip(1) =~= Seq::<char>::empty());
    assert(json_body(seq![c].skip(1)) =~= Seq::<char>::empty());
    assert(seq![c][0] == c);
    assert(json_char(c) + Seq::<char>::empty() =~= json_char(c));
}

/// Reading a written hex digit gives its value back.
pub proof fn lemma_hex_digit_round_trip(v: nat)
    requires
        v < 16,
    ensures
        hex_digit_value(hex_digit_char(v)) == Some(v),
{
    if v < 10 {
        assert(((v + 48) as char) as nat == v + 48);
    } else {
        assert(((v + 87) as char) as nat == v + 87);
    }
}

/// A character is the character of its own code point.
pub proof fn lemma_char_of_code(c: char)
    requires
        is_control(c),
    ensures
        ((c as nat) as char) == c,
{
}

/// A JSON reader gives back exactly the text that was written: escaping is
/// undone, and nothing else is read into or out of the literal.
pub proof fn law_json_body_round_trip(s: Seq<char>)
    ensures
        json_body_value(json_body(s)) == Some(s),
    decreases s.len(),
{
    if s.len() > 0 {
        let c = s[0];
        let rest = json_body(s.skip(1));
        let t = json_body(s);
        law_json_body_round_trip(s.skip(1));
        assert(t == json_char(c) + rest);
        if c == '"' || c == '\\' {
            assert(t.skip(2) =~= rest);
        } else if is_control(c) {
            let n = c as nat;
            assert(t.skip(6) =~= rest);
            assert(t[4] == hex_digit_char(n / 16));
            assert(t[5] == hex_digit_char(n % 16));
            lemma_hex_digit_round_trip(n / 16);
            lemma_hex_digit_round_trip(n % 16);
            let m = n / 16 * 16 + n % 16;
            assert(m == n) by {
                vstd::arithmetic::div_mod::lemma_fundamental_div_mod(n as int, 16);
            }
            lemma_char_of_code(c);
            assert((m as char) == c);
        } else {
            assert(t.skip(1) =~= rest);
        }
        assert(seq![c] + s.skip(1) =~= s);
    }
}

/// Escaped text carries no raw control character, so a line break or other
/// control byte can never end up inside the report as is.
pub proof fn law_json_body_has_no_control(s: Seq<char>)
    ensures
        forall|k: int| 0 <= k < json_body(s).len() ==> !is_control(#[trigger] json_body(s)[k]),
    decreases s.len(),
{
    if s.len() > 0 {
        law_json_body_has_no_control(s.skip(1));
        let a = json_char(s[0]);
        let b = json_body(s.skip(1));
        assert forall|k: int| 0 <= k < json_body(s).len() implies !is_control(
            #[trigger] json_body(s)[k],
        ) by {
            if k < a.len() {
                assert(json_body(s)[k] == a[k]);
            } else {
                assert(json_body(s)[k] == b[k - a.len()]);
            }
        }
    }
}

/// The hex digit for a value below 16.
fn hex_char(n: u32) -> (c: char)
    requires
        n < 16,
    ensures
        c == hex_digit_char(n as nat),
{
    if n < 10 {
        ((n + 48) as u8) as char
    } else {
        ((n + 87) as u8) as char
    }
}

/// Appends one character as it is written inside a JSON string literal.
pub fn push_json_char(out: &mut String, c: char)
    ensures
        final(out)@ == old(out)@ + json_char(c),
{
    let ghost start = out@;
    let v = c as u32;
    if c == '"' || c == '\\' {
        push_char(out, '\\');
        push_char(out, c);
    } else if v < 32 {
        push_char(out, '\\');
        push_char(out, 'u');
        push_char(out, '0');
        push_char(out, '0');
        push_char(out, hex_char(v / 16));
        push_char(out, hex_char(v % 16));
    } else {
        push_char(out, c);
    }
    assert(out@ =~= start + json_char(c));
}

/// Appends a text as the body of a JSON string literal.
pub fn push_json_body(out: &mut String, s: &str)
    ensures
        final(out)@ == old(out)@ + json_body(s@),
{
    let c = chars_of(s);
    let mut i: usize = 0;
    while i < c.len()
        invariant
            c@ == s@,
            i <= c.len(),
            out@ == old(out)@ + json_body(c@.take(i as int)),
        decreases c.len() - i,
    {
        proof {
            assert(c@.take(i + 1) =~= c@.take(i as int) + seq![c@[i as int]]);
            lemma_json_body_concat(c@.take(i as int), seq![c@[i as int]]);
            lemma_json_body_single(c@[i as int]);
        }
        let ghost before = out@;
        push_json_char(out, c[i]);
        assert(out@ =~= old(out)@ + json_body(c@.take(i + 1)));
        i = i + 1;
    }
    assert(c@.take(c.len() as int) =~= c@);
}

// ---- JSON objects -------------------------------------------------------

/// The value of an object member: `true`/`false`, a number (by its text)
/// or a string.
pub enum JsonValue {
    Flag(bool),
    Number(Seq<char>),
    Text(Seq<char>),
}

/// A decimal digit character.
pub open spec fn is_digit_char(c: char) -> bool {
    '0' <= c <= '9'
}

/// One or more decimal digits.
pub open spec fn json_digits(d: Seq<char>) -> bool {
    d.len() > 0 && forall|i: int| 0 <= i < d.len() ==> is_digit_char(#[trigger] d[i])
}

/// The integer part of a JSON number: digits, with no leading zero unless
/// it is `0` itself.
pub open spec fn json_int(d: Seq<char>) -> bool {
    json_digits(d) && (d.len() == 1 || d[0] != '0')
}

/// A non-negative JSON number without exponent: an integer part, then
/// optionally `.` and one or more fraction digits.
pub open spec fn json_number(d: Seq<char>) -> bool {
    match first_index(d, '.') {
        None => json_int(d),
        Some(i) => json_int(d.take(i as int)) && json_digits(d.skip(i + 1 as int)),
    }
}

/// A value that can be written as is: any flag or text, and a number only
/// when its text is a JSON number.
pub open spec fn value_ok(v: JsonValue) -> bool {
    match v {
        JsonValue::Number(d) => json_number(d),
        _ => true,
    }
}

/// How a value is written.
pub open spec fn value_text(v: JsonValue) -> Seq<char> {
    match v {
        JsonValue::Flag(b) => if b {
            seq!['t', 'r', 'u', 'e']
        } else {
            seq!['f', 'a', 'l', 's', 'e']
        },
        JsonValue::Number(d) => d,
        JsonValue::Text(t) => seq!['"'] + json_body(t) + seq!['"'],
    }
}

/// How a member `"name":value` is written.
pub open spec fn member_text(m: (Seq<char>, JsonValue)) -> Seq<char> {
    seq!['"'] + json_body(m.0) + seq!['"', ':'] + value_text(m.1)
}

/// Members written one after the other, separated by commas.
pub open spec fn members_text(ms: Seq<(Seq<char>, JsonValue)>) -> Seq<char>
    decreases ms.len(),
{
    if ms.len() == 0 {
        Seq::empty()
    } else if ms.len() == 1 {
        member_text(ms[0])
    } else {
        member_text(ms[0]) + seq![','] + members_text(ms.skip(1))
    }
}

/// An object written without whitespace, its members in order.
pub open spec fn object_text(ms: Seq<(Seq<char>, JsonValue)>) -> Seq<char> {
    seq!['{'] + members_text(ms) + seq!['}']
}

/// What a JSON reader takes from the text after a string's opening quote:
/// the string's value and the text after its closing quote (escapes `\"`,
/// `\\` and `\u00XX`; `None` for a raw control character, another escape
/// or a missing closing quote).
pub open spec fn read_string_rest(t: Seq<char>) -> Option<(Seq<char>, Seq<char>)>
    decreases t.len(),
{
    if t.len() == 0 {
        None
    } else if t[0] == '"' {
        Some((Seq::empty(), t.skip(1)))
    } else if t[0] == '\\' {
        if t.len() >= 2 && (t[1] == '"' || t[1] == '\\') {
            match read_string_rest(t.skip(2)) {
                Some((v, r)) => Some((seq![t[1]] + v, r)),
                None => None,
            }
        } else if t.len() >= 6 && t[1] == 'u' && t[2] == '0' && t[3] == '0' && hex_digit_value(
            t[4],
        ) is Some && hex_digit_value(t[5]) is Some {
            match read_string_rest(t.skip(6)) {
                Some((v, r)) => Some(
                    (
                        seq![
                            (hex_digit_value(t[4]).unwrap() * 16 + hex_digit_value(
                                t[5],
                            ).unwrap()) as char,
                        ] + v,
                        r,
                    ),
                ),
                None => None,
            }
        } else {
            None
        }
    } else if is_control(t[0]) {
        None
    } else {
        match read_string_rest(t.skip(1)) {
            Some((v, r)) => Some((seq![t[0]] + v, r)),
            None => None,
        }
    }
}

/// A character that can occur in the text of a number.
pub open spec fn number_char(c: char) -> bool {
    is_digit_char(c) || c == '.'
}

/// The length of the run of number characters at the start of `t`.
pub open spec fn number_len(t: Seq<char>) -> nat
    decreases t.len(),
{
    if t.len() > 0 && number_char(t[0]) {
        1 + number_len(t.skip(1))
    } else {
        0
    }
}

/// What a JSON reader takes as a number at the start of `t`: the run of
/// number characters, when it is a JSON number, and the text after it.
pub open spec fn read_number(t: Seq<char>) -> Option<(Seq<char>, Seq<char>)> {
    let n = number_len(t);
    if n <= t.len() && json_number(t.take(n as int)) {
        Some((t.take(n as int), t.skip(n as int)))
    } else {
        None
    }
}

/// What a JSON reader takes as a value at the start of `t`, and the text
/// after it.
pub open spec fn read_value(t: Seq<char>) -> Option<(JsonValue, Seq<char>)> {
    if t.len() > 0 && t[0] == '"' {
        match read_string_rest(t.skip(1)) {
            Some((v, r)) => Some((JsonValue::Text(v), r)),
            None => None,
        }
    } else if t.len() > 0 && is_digit_char(t[0]) {
        match read_number(t) {
            Some((d, r)) => Some((JsonValue::Number(d), r)),
            None => None,
        }
    } else if t.len() >= 4 && t.take(4) == seq!['t', 'r', 'u', 'e'] {
        Some((JsonValue::Flag(true), t.skip(4)))
    } else if t.len() >= 5 && t.take(5) == seq!['f', 'a', 'l', 's', 'e'] {
        Some((JsonValue::Flag(false), t.skip(5)))
    } else {
        None
    }
}

/// Reading a string consumes at least its closing quote.
pub proof fn lemma_read_string_shorter(t: Seq<char>)
    ensures
        read_string_rest(t) matches Some((v, r)) ==> r.len() < t.len(),
    decreases t.len(),
{
    if t.len() > 0 && t[0] != '"' {
        if t[0] == '\\' {
            if t.len() >= 2 && (t[1] == '"' || t[1] == '\\') {
                lemma_read_string_shorter(t.skip(2));
            } else if t.len() >= 6 {
                lemma_read_string_shorter(t.skip(6));
            }
        } else {
            lemma_read_string_shorter(t.skip(1));
        }
    }
}

/// A run of number characters lies within the text.
pub proof fn lemma_number_len_bounded(t: Seq<char>)
    ensures
        number_len(t) <= t.len(),
    decreases t.len(),
{
    if t.len() > 0 && number_char(t[0]) {
        lemma_number_len_bounded(t.skip(1));
    }
}

/// Reading a value consumes at least one character.
pub proof fn lemma_read_value_shorter(t: Seq<char>)
    ensures
        read_value(t) matches Some((v, r)) ==> r.len() < t.len(),
{
    if t.len() > 0 && t[0] == '"' {
        lemma_read_string_shorter(t.skip(1));
    } else if t.len() > 0 && is_digit_char(t[0]) {
        lemma_number_len_bounded(t);
    }
}

/// What a JSON reader takes from a list of members, each `"name":value`,
/// separated by commas and closed by `}` at the very end of `t`.
pub open spec fn read_member_list(t: Seq<char>) -> Option<Seq<(Seq<char>, JsonValue)>>
    decreases t.len(),
{
    if t.len() > 0 && t[0] == '"' {
        match read_string_rest(t.skip(1)) {
            Some((name, r1)) => if r1.len() > 0 && r1[0] == ':' {
                match read_value(r1.skip(1)) {
                    Some((v, r2)) => if r2 == seq!['}'] {
                        Some(seq![(name, v)])
                    } else if r2.len() > 0 && r2[0] == ',' {
                        proof {
                            lemma_read_string_shorter(t.skip(1));
                            lemma_read_value_shorter(r1.skip(1));
                        }
                        match read_member_list(r2.skip(1)) {
                            Some(rest) => Some(seq![(name, v)] + rest),
                            None => None,
                        }
                    } else {
                        None
                    },
                    None => None,
                }
            } else {
                None
            },
            None => None,
        }
    } else {
        None
    }
}

/// What a JSON reader takes from a text that is one object written without
/// whitespace: its members in order, or `None` when the text is not such an
/// object.
pub open spec fn read_object(t: Seq<char>) -> Option<Seq<(Seq<char>, JsonValue)>> {
    if t.len() > 0 && t[0] == '{' {
        if t.skip(1) == seq!['}'] {
            Some(Seq::empty())
        } else {
            read_member_list(t.skip(1))
        }
    } else {
        None
    }
}

/// A string body followed by its closing quote reads back as the text, with
/// whatever follows the quote left over.
pub proof fn lemma_read_string_back(s: Seq<char>, rest: Seq<char>)
    ensures
        read_string_rest(json_body(s) + seq!['"'] + rest) == Some((s, rest)),
    decreases s.len(),
{
    let t = json_body(s) + seq!['"'] + rest;
    if s.len() == 0 {
        assert(json_body(s) =~= Seq::<char>::empty());
        assert(t[0] == '"');
        assert(t.skip(1) =~= rest);
    } else {
        let c = s[0];
        let tail = json_body(s.skip(1)) + seq!['"'] + rest;
        lemma_read_string_back(s.skip(1), rest);
        assert(t =~= json_char(c) + tail);
        if c == '"' || c == '\\' {
            assert(t.skip(2) =~= tail);
        } else if is_control(c) {
            let n = c as nat;
            assert(t.skip(6) =~= tail);
            lemma_hex_digit_round_trip(n / 16);
            lemma_hex_digit_round_trip(n % 16);
            let m = n / 16 * 16 + n % 16;
            assert(m == n) by {
                vstd::arithmetic::div_mod::lemma_fundamental_div_mod(n as int, 16);
            }
            lemma_char_of_code(c);
            assert((m as char) == c);
        } else {
            assert(t.skip(1) =~= tail);
        }
        assert(seq![c] + s.skip(1) =~= s);
    }
}

proof fn lemma_number_chars(d: Seq<char>)
    requires
        json_number(d),
    ensures
        d.len() > 0,
        is_digit_char(d[0]),
        forall|k: int| 0 <= k < d.len() ==> number_char(#[trigger] d[k]),
{
    lemma_first_index(d, '.');
    match first_index(d, '.') {
        None => {
            assert forall|k: int| 0 <= k < d.len() implies number_char(#[trigger] d[k]) by {
                assert(is_digit_char(d[k]));
            }
        },
        Some(i) => {
            let a = d.take(i as int);
            let b = d.skip(i + 1 as int);
            assert(is_digit_char(a[0]));
            assert forall|k: int| 0 <= k < d.len() implies number_char(#[trigger] d[k]) by {
                if k < i {
                    assert(d[k] == a[k]);
                    assert(is_digit_char(a[k]));
                } else if k > i {
                    assert(d[k] == b[k - i - 1]);
                    assert(is_digit_char(b[k - i - 1]));
                }
            }
        },
    }
}

proof fn lemma_number_len_of(d: Seq<char>, rest: Seq<char>)
    requires
        forall|k: int| 0 <= k < d.len() ==> number_char(#[trigger] d[k]),
        rest.len() == 0 || !number_char(rest[0]),
    ensures
        number_len(d + rest) == d.len(),
    decreases d.len(),
{
    if d.len() == 0 {
        assert(d + rest =~= rest);
    } else {
        assert((d + rest)[0] == d[0]);
        assert((d + rest).skip(1) =~= d.skip(1) + rest);
        assert forall|k: int| 0 <= k < d.skip(1).len() implies number_char(#[trigger] d.skip(1)[k]) by {
            assert(d.skip(1)[k] == d[k + 1]);
        }
        lemma_number_len_of(d.skip(1), rest);
    }
}

/// A written value reads back as itself when a `,` or `}` follows it.
pub proof fn lemma_read_value_back(v: JsonValue, rest: Seq<char>)
    requires
        value_ok(v),
        rest.len() > 0,
        rest[0] == ',' || rest[0] == '}',
    ensures
        read_value(value_text(v) + rest) == Some((v, rest)),
{
    let t = value_text(v) + rest;
    match v {
        JsonValue::Flag(b) => {
            if b {
                assert(t.take(4) =~= seq!['t', 'r', 'u', 'e']);
                assert(t.skip(4) =~= rest);
            } else {
                assert(t.take(4) != seq!['t', 'r', 'u', 'e']) by {
                    assert(t.take(4)[0] == 'f');
                }
                assert(t.take(5) =~= seq!['f', 'a', 'l', 's', 'e']);
                assert(t.skip(5) =~= rest);
            }
        },
        JsonValue::Number(d) => {
            lemma_number_chars(d);
            assert(t[0] == d[0]);
            lemma_number_len_of(d, rest);
            assert(t.take(d.len() as int) =~= d);
            assert(t.skip(d.len() as int) =~= rest);
        },
        JsonValue::Text(s) => {
            assert(t.skip(1) =~= json_body(s) + seq!['"'] + rest);
            lemma_read_string_back(s, rest);
        },
    }
}

/// Written members followed by the closing brace read back as themselves.
pub proof fn lemma_read_members_back(ms: Seq<(Seq<char>, JsonValue)>)
    requires
        ms.len() > 0,
        forall|i: int| 0 <= i < ms.len() ==> value_ok(#[trigger] ms[i].1),
    ensures
        read_member_list(members_text(ms) + seq!['}']) == Some(ms),
    decreases ms.len(),
{
    let m = ms[0];
    assert(value_ok(ms[0].1));
    let tail = if ms.len() == 1 {
        seq!['}']
    } else {
        seq![','] + members_text(ms.skip(1)) + seq!['}']
    };
    let t = members_text(ms) + seq!['}'];
    assert(t =~= member_text(m) + tail);
    let r1 = seq![':'] + value_text(m.1) + tail;
    assert(t.skip(1) =~= json_body(m.0) + seq!['"'] + r1);
    lemma_read_string_back(m.0, r1);
    assert(r1.skip(1) =~= value_text(m.1) + tail);
    lemma_read_value_back(m.1, tail);
    if ms.len() == 1 {
        assert(ms =~= seq![(m.0, m.1)]);
    } else {
        assert(tail != seq!['}']);
        assert forall|i: int| 0 <= i < ms.skip(1).len() implies value_ok(#[trigger] ms.skip(1)[i].1) by {
            assert(ms.skip(1)[i] == ms[i + 1]);
        }
        lemma_read_members_back(ms.skip(1));
        assert(tail.skip(1) =~= members_text(ms.skip(1)) + seq!['}']);
        assert(seq![(m.0, m.1)] + ms.skip(1) =~= ms);
    }
}

/// JSON object round trip: an object written by `object_text` reads back as
/// exactly its members, names and values, in order.
pub proof fn law_object_round_trip(ms: Seq<(Seq<char>, JsonValue)>)
    requires
        forall|i: int| 0 <= i < ms.len() ==> value_ok(#[trigger] ms[i].1),
    ensures
        read_object(object_text(ms)) == Some(ms),
{
    let t = object_text(ms);
    assert(t.skip(1) =~= members_text(ms) + seq!['}']);
    if ms.len() == 0 {
        assert(members_text(ms) =~= Seq::<char>::empty());
        assert(t.skip(1) =~= seq!['}']);
        assert(ms =~= Seq::<(Seq<char>, JsonValue)>::empty());
    } else {
        lemma_read_members_back(ms);
        assert(t.skip(1) != seq!['}']) by {
            assert(t.skip(1)[0] == '"');
        }
    }
}

/// Decimal renderings are JSON numbers.
pub proof fn lemma_decimal_is_number(n: nat)
    ensures
        json_number(decimal(n)),
        forall|k: int| 0 <= k < decimal(n).len() ==> is_digit_char(#[trigger] decimal(n)[k]),
        decimal(n)[0] == '0' <==> n == 0,
    decreases n,
{
    let d = decimal(n);
    if n < 10 {
        assert(((48 + n) as u8) as char as nat == 48 + n);
        assert(d =~= seq![digit_char(n)]);
    } else {
        lemma_decimal_is_number(n / 10);
        let a = decimal(n / 10);
        assert(d == a.push(digit_char(n % 10)));
        assert(((48 + n % 10) as u8) as char as nat == 48 + n % 10);
        assert forall|k: int| 0 <= k < d.len() implies is_digit_char(#[trigger] d[k]) by {
            if k < a.len() {
                assert(d[k] == a[k]);
            }
        }
        assert(d[0] == a[0]);
    }
    lemma_first_index(d, '.');
    if let Some(i) = first_index(d, '.') {
        assert(is_digit_char(d[i as int]));
    }
}

/// A member value as the program holds it.
pub enum JsonField {
    Flag(bool),
    Number(String),
    Text(String),
}

impl View for JsonField {
    type V = JsonValue;

    open spec fn view(&self) -> JsonValue {
        match self {
            JsonField::Flag(b) => JsonValue::Flag(*b),
            JsonField::Number(d) => JsonValue::Number(d@),
            JsonField::Text(t) => JsonValue::Text(t@),
        }
    }
}

/// The members of an object as names and values.
pub open spec fn members_view(v: Seq<(String, JsonField)>) -> Seq<(Seq<char>, JsonValue)> {
    Seq::new(v.len(), |i: int| (v[i].0@, v[i].1@))
}

/// Appends a member value as it is written.
fn push_value(out: &mut String, v: &JsonField)
    ensures
        final(out)@ == old(out)@ + value_text(v@),
{
    let ghost start = out@;
    match v {
        JsonField::Flag(b) => {
            if *b {
                push_char(out, 't');
                push_char(out, 'r');
                push_char(out, 'u');
                push_char(out, 'e');
            } else {
                push_char(out, 'f');
                push_char(out, 'a');
                push_char(out, 'l');
                push_char(out, 's');
                push_char(out, 'e');
            }
        },
        JsonField::Number(d) => {
            out.append(d.as_str());
        },
        JsonField::Text(t) => {
            push_char(out, '"');
            push_json_body(out, t.as_str());
            push_char(out, '"');
        },
    }
    assert(out@ =~= start + value_text(v@));
}

/// Writes an object, its members in order, without whitespace.
pub fn write_object(members: &Vec<(String, JsonField)>) -> (r: String)
    ensures
        r@ == object_text(members_view(members@)),
{
    let ghost ms = members_view(members@);
    let mut out = String::new();
    push_char(&mut out, '{');
    let n = members.len();
    let mut i: usize = 0;
    assert(ms.skip(0) =~= ms);
    while i < n
        invariant
            n == members@.len(),
            ms == members_view(members@),
            i <= n,
            out@ + members_text(ms.skip(i as int)) == seq!['{'] + members_text(ms),
        decreases n - i,
    {
        let ghost before = out@;
        let m = &members[i];
        assert(ms[i as int] == (m.0@, m.1@));
        push_char(&mut out, '"');
        push_json_body(&mut out, m.0.as_str());
        push_char(&mut out, '"');
        push_char(&mut out, ':');
        push_value(&mut out, &m.1);
        assert(out@ =~= before + member_text(ms[i as int]));
        assert(ms.skip(i as int)[0] == ms[i as int]);
        assert(ms.skip(i as int).skip(1) =~= ms.skip(i + 1));
        if i + 1 < n {
            push_char(&mut out, ',');
            assert(out@ + members_text(ms.skip(i + 1)) =~= before + members_text(ms.skip(i as int)));
        } else {
            assert(ms.skip(i + 1).len() == 0);
            assert(members_text(ms.skip(i + 1)) =~= Seq::<char>::empty());
            assert(out@ + members_text(ms.skip(i + 1)) =~= before + members_text(ms.skip(i as int)));
        }
        i = i + 1;
    }
    assert(members_text(ms.skip(n as int)) =~= Seq::<char>::empty());
    push_char(&mut out, '}');
    assert(out@ =~= object_text(ms));
    out
}

/// The value of the first member called `name`, if any.
pub open spec fn member_value(ms: Seq<(Seq<char>, JsonValue)>, name: Seq<char>) -> Option<
    JsonValue,
>
    decreases ms.len(),
{
    if ms.len() == 0 {
        None
    } else if ms[0].0 == name {
        Some(ms[0].1)
    } else {
        member_value(ms.skip(1), name)
    }
}

/// The value of a run of decimal digits.
pub open spec fn number_value(d: Seq<char>) -> nat
    decreases d.len(),
{
    if d.len() == 0 {
        0
    } else {
        number_value(d.drop_last()) * 10 + (d.last() as nat - 48) as nat
    }
}

/// A decimal rendering reads back as the number rendered.
pub proof fn lemma_decimal_value(n: nat)
    ensures
        number_value(decimal(n)) == n,
    decreases n,
{
    if n < 10 {
        assert(((48 + n) as u8) as char as nat == 48 + n);
        assert(decimal(n).drop_last().len() == 0);
        assert(number_value(decimal(n).drop_last()) == 0);
        assert(decimal(n).last() == digit_char(n));
    } else {
        lemma_decimal_value(n / 10);
        let a = decimal(n / 10);
        assert(decimal(n).drop_last() =~= a);
        assert(decimal(n).last() == digit_char(n % 10));
        assert(((48 + n % 10) as u8) as char as nat == 48 + n % 10);
        assert(n / 10 * 10 + n % 10 == n) by {
            vstd::arithmetic::div_mod::lemma_fundamental_div_mod(n as int, 10);
        }
    }
}

/// The member found at position `k` is the one a lookup by its name gives,
/// when no earlier member has that name.
pub proof fn lemma_member_value_at(ms: Seq<(Seq<char>, JsonValue)>, name: Seq<char>, k: int)
    requires
        0 <= k < ms.len(),
        ms[k].0 == name,
        forall|j: int| 0 <= j < k ==> (#[trigger] ms[j]).0 != name,
    ensures
        member_value(ms, name) == Some(ms[k].1),
    decreases k,
{
    if k > 0 {
        assert(ms[0].0 != name);
        assert forall|j: int| 0 <= j < k - 1 implies (#[trigger] ms.skip(1)[j]).0 != name by {
            assert(ms.skip(1)[j] == ms[j + 1]);
        }
        lemma_member_value_at(ms.skip(1), name, k - 1);
    }
}

} // verus!
