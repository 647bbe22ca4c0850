//! Request envelope codec.
//!
//! The envelope wire format is a JSON object with two optional members:
//! `query` (a string) and `variables` (an object). Variable values other
//! than strings are carried through verbatim as raw spans of source text,
//! so arbitrary JSON payloads survive a decode/encode round trip without
//! this stage having to interpret them.

use vstd::prelude::*;
use vstd::utf8::{decode_utf8, encode_utf8, valid_utf8};

verus! {

/// One value inside the `variables` object: either a JSON string
/// (decoded to its character content) or any other JSON value, held as
/// the exact span of source text it occupied.
pub enum VarValue {
    Text(String),
    Raw(String),
}

/// The structured request payload: optional query text and an optional
/// ordered mapping of variable names to values.
pub struct RequestEnvelope {
    pub query: Option<String>,
    pub variables: Option<Vec<(String, VarValue)>>,
}

/// Mathematical model of a variable value.
pub enum VarValueView {
    Text(Seq<char>),
    Raw(Seq<char>),
}

/// Mathematical model of an envelope.
pub struct EnvelopeView {
    pub query: Option<Seq<char>>,
    pub variables: Option<Seq<(Seq<char>, VarValueView)>>,
}

impl View for VarValue {
    type V = VarValueView;

    open spec fn view(&self) -> VarValueView {
        match self {
            VarValue::Text(s) => VarValueView::Text(s@),
            VarValue::Raw(s) => VarValueView::Raw(s@),
        }
    }
}

impl View for RequestEnvelope {
    type V = EnvelopeView;

    open spec fn view(&self) -> EnvelopeView {
        EnvelopeView {
            query: match &self.query {
                Some(q) => Some(q@),
                None => None,
            },
            variables: match &self.variables {
                Some(v) => Some(v@.map_values(|p: (String, VarValue)| (p.0@, p.1@))),
                None => None,
            },
        }
    }
}

/// Whitespace that the decoder tolerates between JSON tokens.
pub open spec fn is_ws(c: char) -> bool {
    c == ' ' || c == '\n' || c == '\t' || c == '\r'
}

/// The lower-case hexadecimal digit for a value below sixteen.
pub open spec fn hex_digit(n: int) -> char {
    if n == 0 {
        '0'
    } else if n == 1 {
        '1'
    } else if n == 2 {
        '2'
    } else if n == 3 {
        '3'
    } else if n == 4 {
        '4'
    } else if n == 5 {
        '5'
    } else if n == 6 {
        '6'
    } else if n == 7 {
        '7'
    } else if n == 8 {
        '8'
    } else if n == 9 {
        '9'
    } else if n == 10 {
        'a'
    } else if n == 11 {
        'b'
    } else if n == 12 {
        'c'
    } else if n == 13 {
        'd'
    } else if n == 14 {
        'e'
    } else if n == 15 {
        'f'
    } else {
        '0'
    }
}

/// The value of one hexadecimal digit, either case, or a negative
/// number for any other character.
pub open spec fn hex_val(c: char) -> int {
    let u = c as u32;
    if 48 <= u && u <= 57 {
        u as int - 48
    } else if 97 <= u && u <= 102 {
        u as int - 87
    } else if 65 <= u && u <= 70 {
        u as int - 55
    } else {
        -1
    }
}

/// The value of four hexadecimal digits starting at `p`, or a negative
/// number when they are not there.
pub open spec fn hex4(s: Seq<char>, p: int) -> int {
    if p < 0 || p + 4 > s.len() {
        -1
    } else {
        let a = hex_val(s[p]);
        let b = hex_val(s[p + 1]);
        let c = hex_val(s[p + 2]);
        let d = hex_val(s[p + 3]);
        if a < 0 || b < 0 || c < 0 || d < 0 {
            -1
        } else {
            a * 4096 + b * 256 + c * 16 + d
        }
    }
}

/// How one character of string content is written: the two JSON
/// metacharacters and the five control characters with a short escape
/// take two output characters, the remaining control characters take a
/// `\u00XX` escape, and everything else stands as is.
pub open spec fn esc_char(c: char) -> Seq<char> {
    if c == '"' {
        seq!['\\', '"']
    } else if c == '\\' {
        seq!['\\', '\\']
    } else if c == '\n' {
        seq!['\\', 'n']
    } else if c == '\t' {
        seq!['\\', 't']
    } else if c == '\r' {
        seq!['\\', 'r']
    } else if c == '\u{0008}' {
        seq!['\\', 'b']
    } else if c == '\u{000C}' {
        seq!['\\', 'f']
    } else if (c as u32) < 32 {
        seq![
            '\\',
            'u',
            '0',
            '0',
            hex_digit((c as u32) as int / 16),
            hex_digit((c as u32) as int % 16),
        ]
    } else {
        seq![c]
    }
}

/// String content, escaped.
pub open spec fn esc_str(s: Seq<char>) -> Seq<char>
    decreases s.len(),
{
    if s.len() == 0 {
        Seq::empty()
    } else {
        esc_char(s[0]) + esc_str(s.drop_first())
    }
}

/// A JSON string token: quote, escaped content, quote.
pub open spec fn enc_text(s: Seq<char>) -> Seq<char> {
    seq!['"'] + esc_str(s) + seq!['"']
}

/// One variable value as the encoder writes it.
pub open spec fn enc_var_value(v: VarValueView) -> Seq<char> {
    match v {
        VarValueView::Text(s) => enc_text(s),
        VarValueView::Raw(t) => t,
    }
}

/// The members of the `variables` object, comma separated.
pub open spec fn enc_entries(entries: Seq<(Seq<char>, VarValueView)>) -> Seq<char>
    decreases entries.len(),
{
    if entries.len() == 0 {
        Seq::empty()
    } else {
        let head = enc_text(entries[0].0) + seq![':'] + enc_var_value(entries[0].1);
        if entries.len() == 1 {
            head
        } else {
            head + seq![','] + enc_entries(entries.drop_first())
        }
    }
}

/// The name of the member that carries query text.
pub open spec fn key_query() -> Seq<char> {
    seq!['q', 'u', 'e', 'r', 'y']
}

/// The name of the member that carries the variables object.
pub open spec fn key_variables() -> Seq<char> {
    seq!['v', 'a', 'r', 'i', 'a', 'b', 'l', 'e', 's']
}

/// The literal `null`.
pub open spec fn null_text() -> Seq<char> {
    seq!['n', 'u', 'l', 'l']
}

/// The `query` member as the encoder writes it.
pub open spec fn enc_query_member(q: Seq<char>) -> Seq<char> {
    enc_text(key_query()) + seq![':'] + enc_text(q)
}

/// The `variables` member as the encoder writes it.
pub open spec fn enc_variables_member(entries: Seq<(Seq<char>, VarValueView)>) -> Seq<char> {
    enc_text(key_variables()) + seq![':'] + seq!['{'] + enc_entries(entries) + seq!['}']
}

/// The deterministic encoding of an envelope: a compact JSON object,
/// members in the fixed order `query` then `variables`, absent members
/// omitted.
pub open spec fn spec_encode(e: EnvelopeView) -> Seq<char> {
    let inner = match (e.query, e.variables) {
        (None, None) => Seq::<char>::empty(),
        (Some(q), None) => enc_query_member(q),
        (None, Some(entries)) => enc_variables_member(entries),
        (Some(q), Some(entries)) => enc_query_member(q) + seq![','] + enc_variables_member(
            entries,
        ),
    };
    seq!['{'] + inner + seq!['}']
}

/// A character that can open a JSON value other than a string: an
/// object, an array, one of the three literals, or a number.
pub open spec fn json_value_start(c: char) -> bool {
    c == '{' || c == '[' || c == 't' || c == 'f' || c == 'n' || c == '-' || ('0' <= c && c <= '9')
}

/// A raw span is well formed when it is non-empty, opens like a
/// non-string JSON value, and the span scanner consumes exactly all of
/// it. Every raw span the decoder produces has this shape, and it is
/// what the round trip needs. The scanner checks delimiter structure
/// (balanced brackets, closed strings), not the full JSON grammar:
/// what stands inside a span is carried verbatim, not interpreted.
pub open spec fn wf_raw(t: Seq<char>) -> bool {
    &&& t.len() > 0
    &&& json_value_start(t[0])
    &&& raw_end_from(t, 0, 0, false, false) == Some(t.len() as int)
}

/// A variable value is well formed: string content round-trips through
/// escaping unconditionally, a raw span must rescan to itself.
pub open spec fn wf_var_value(v: VarValueView) -> bool {
    match v {
        VarValueView::Text(_) => true,
        VarValueView::Raw(t) => wf_raw(t),
    }
}

/// A valid envelope: every raw span among its variables is
/// self-delimiting. `decode(encode(e)) == e` holds exactly of these,
/// and everything the decoder produces is one.
pub open spec fn wf_envelope(e: EnvelopeView) -> bool {
    match e.variables {
        Some(entries) => forall|i: int|
            0 <= i < entries.len() ==> wf_var_value((#[trigger] entries[i]).1),
        None => true,
    }
}

/// Scans one JSON value starting at `j`, tracking bracket depth and
/// string state, and returns the index just past it: the position of the
/// first `,`, `}` or `]` at depth zero outside a string, or the end of
/// input. `None` when the input ends inside a string or a bracket, or a
/// close bracket appears at depth zero before the value ends.
pub open spec fn raw_end_from(s: Seq<char>, j: int, depth: int, in_str: bool, esc: bool) -> Option<
    int,
>
    decreases s.len() - j,
{
    if j < 0 || j > s.len() {
        None
    } else if j == s.len() {
        if depth == 0 && !in_str {
            Some(j)
        } else {
            None
        }
    } else {
        let c = s[j];
        if in_str {
            if esc {
                raw_end_from(s, j + 1, depth, true, false)
            } else if c == '\\' {
                raw_end_from(s, j + 1, depth, true, true)
            } else if c == '"' {
                raw_end_from(s, j + 1, depth, false, false)
            } else {
                raw_end_from(s, j + 1, depth, true, false)
            }
        } else if depth == 0 && (c == ',' || c == '}' || c == ']') {
            Some(j)
        } else if c == '{' || c == '[' {
            raw_end_from(s, j + 1, depth + 1, false, false)
        } else if c == '}' || c == ']' {
            if depth <= 0 {
                None
            } else {
                raw_end_from(s, j + 1, depth - 1, false, false)
            }
        } else if c == '"' {
            raw_end_from(s, j + 1, depth, true, false)
        } else {
            raw_end_from(s, j + 1, depth, false, false)
        }
    }
}

/// The first index at or after `j` holding a non-whitespace character,
/// or the length of the input.
pub open spec fn skip_ws(s: Seq<char>, j: int) -> int
    decreases s.len() - j,
{
    if j < 0 || j >= s.len() {
        j
    } else if is_ws(s[j]) {
        skip_ws(s, j + 1)
    } else {
        j
    }
}

/// Parses string content starting just after an opening quote: returns
/// the unescaped content and the index just past the closing quote.
/// Accepts the full JSON escape set — the short escapes and `\uXXXX`,
/// with a surrogate pair naming one supplementary character — and
/// rejects unknown escapes, lone surrogates and raw control characters.
pub open spec fn parse_str_from(s: Seq<char>, j: int) -> Option<(Seq<char>, int)>
    decreases s.len() - j,
{
    if j < 0 || j >= s.len() {
        None
    } else {
        let c = s[j];
        if c == '"' {
            Some((Seq::empty(), j + 1))
        } else if c == '\\' {
            if j + 1 < s.len() {
                let d = s[j + 1];
                if d == 'u' {
                    let h1 = hex4(s, j + 2);
                    if h1 < 0 {
                        None
                    } else if 0xD800 <= h1 && h1 < 0xDC00 {
                        if j + 12 <= s.len() && s[j + 6] == '\\' && s[j + 7] == 'u' {
                            let h2 = hex4(s, j + 8);
                            if 0xDC00 <= h2 && h2 < 0xE000 {
                                let cp = 0x10000 + (h1 - 0xD800) * 0x400 + (h2 - 0xDC00);
                                match parse_str_from(s, j + 12) {
                                    Some((rest, end)) => Some(
                                        (seq![(cp as u32) as char] + rest, end),
                                    ),
                                    None => None,
                                }
                            } else {
                                None
                            }
                        } else {
                            None
                        }
                    } else if 0xDC00 <= h1 && h1 < 0xE000 {
                        None
                    } else {
                        match parse_str_from(s, j + 6) {
                            Some((rest, end)) => Some((seq![(h1 as u32) as char] + rest, end)),
                            None => None,
                        }
                    }
                } else {
                    let u = if d == '"' {
                        Some('"')
                    } else if d == '\\' {
                        Some('\\')
                    } else if d == '/' {
                        Some('/')
                    } else if d == 'b' {
                        Some('\u{0008}')
                    } else if d == 'f' {
                        Some('\u{000C}')
                    } else if d == 'n' {
                        Some('\n')
                    } else if d == 't' {
                        Some('\t')
                    } else if d == 'r' {
                        Some('\r')
                    } else {
                        None
                    };
                    match u {
                        Some(uc) => match parse_str_from(s, j + 2) {
                            Some((rest, end)) => Some((seq![uc] + rest, end)),
                            None => None,
                        },
                        None => None,
                    }
                }
            } else {
                None
            }
        } else if (c as u32) < 32 {
            None
        } else {
            match parse_str_from(s, j + 1) {
                Some((rest, end)) => Some((seq![c] + rest, end)),
                None => None,
            }
        }
    }
}

/// Parses one variable value starting at `j` (whitespace allowed): a
/// string becomes `Text`, anything that opens like another JSON value
/// becomes the `Raw` span the scanner delimits — carried verbatim, its
/// inside checked for delimiter structure only, not the full grammar.
/// Returns the value and the index just past it.
pub open spec fn parse_value_span(s: Seq<char>, j: int) -> Option<(VarValueView, int)> {
    let k = skip_ws(s, j);
    if !(0 <= k < s.len()) {
        None
    } else if s[k] == '"' {
        match parse_str_from(s, k + 1) {
            Some((content, end)) => Some((VarValueView::Text(content), end)),
            None => None,
        }
    } else if !json_value_start(s[k]) {
        None
    } else {
        match raw_end_from(s, k, 0, false, false) {
            Some(end) => if k < end <= s.len() {
                Some((VarValueView::Raw(s.subrange(k, end)), end))
            } else {
                None
            },
            None => None,
        }
    }
}

/// Parses the members of the `variables` object, `j` standing just after
/// the `{` (when `first`) or just after a separating comma. Returns the
/// entries in order of appearance and the index just past the closing
/// `}`.
pub open spec fn parse_entries(s: Seq<char>, j: int, first: bool) -> Option<
    (Seq<(Seq<char>, VarValueView)>, int),
>
    decreases s.len() - j,
{
    let k = skip_ws(s, j);
    if !(j <= k < s.len()) {
        None
    } else if first && s[k] == '}' {
        Some((Seq::empty(), k + 1))
    } else if s[k] != '"' {
        None
    } else {
        match parse_str_from(s, k + 1) {
            None => None,
            Some((key, e1)) => if !(k < e1 <= s.len()) {
                None
            } else {
                let m = skip_ws(s, e1);
                if !(e1 <= m < s.len()) {
                    None
                } else if s[m] != ':' {
                    None
                } else {
                    match parse_value_span(s, m + 1) {
                        None => None,
                        Some((v, e2)) => if !(m < e2 <= s.len()) {
                            None
                        } else {
                            let p = skip_ws(s, e2);
                            if !(e2 <= p < s.len()) {
                                None
                            } else if s[p] == '}' {
                                Some((seq![(key, v)], p + 1))
                            } else if s[p] == ',' && p + 1 > j {
                                match parse_entries(s, p + 1, false) {
                                    Some((rest, end)) => Some((seq![(key, v)] + rest, end)),
                                    None => None,
                                }
                            } else {
                                None
                            }
                        },
                    }
                }
            },
        }
    }
}

/// Parses the value of the `variables` member: an object yields its
/// entries, `null` yields absence, anything else is a malformed
/// envelope.
pub open spec fn parse_variables_value(s: Seq<char>, j: int) -> Option<
    (Option<Seq<(Seq<char>, VarValueView)>>, int),
> {
    let k = skip_ws(s, j);
    if !(0 <= k < s.len()) {
        None
    } else if s[k] == '{' {
        match parse_entries(s, k + 1, true) {
            Some((entries, end)) => Some((Some(entries), end)),
            None => None,
        }
    } else {
        match parse_value_span(s, j) {
            Some((VarValueView::Raw(t), end)) => if t == null_text() {
                Some((None, end))
            } else {
                None
            },
            _ => None,
        }
    }
}

/// Parses the value of the `query` member: a string yields the query
/// text, `null` yields absence, anything else is a malformed envelope.
pub open spec fn parse_query_value(s: Seq<char>, j: int) -> Option<(Option<Seq<char>>, int)> {
    match parse_value_span(s, j) {
        Some((VarValueView::Text(t), end)) => Some((Some(t), end)),
        Some((VarValueView::Raw(t), end)) => if t == null_text() {
            Some((None, end))
        } else {
            None
        },
        None => None,
    }
}

/// Parses the members of the top-level object, accumulating the last
/// `query` and `variables` members seen and skipping unknown members.
/// `j` stands just after the `{` (when `first`) or after a comma.
pub open spec fn parse_top(
    s: Seq<char>,
    j: int,
    first: bool,
    q: Option<Seq<char>>,
    v: Option<Seq<(Seq<char>, VarValueView)>>,
) -> Option<(EnvelopeView, int)>
    decreases s.len() - j,
{
    let k = skip_ws(s, j);
    if !(j <= k < s.len()) {
        None
    } else if first && s[k] == '}' {
        Some((EnvelopeView { query: q, variables: v }, k + 1))
    } else if s[k] != '"' {
        None
    } else {
        match parse_str_from(s, k + 1) {
            None => None,
            Some((key, e1)) => if !(k < e1 <= s.len()) {
                None
            } else {
                let m = skip_ws(s, e1);
                if !(e1 <= m < s.len()) {
                    None
                } else if s[m] != ':' {
                    None
                } else {
                    let stepped: Option<(Option<Seq<char>>, Option<
                        Seq<(Seq<char>, VarValueView)>,
                    >, int)> = if key == key_query() {
                        match parse_query_value(s, m + 1) {
                            Some((q2, e2)) => Some((q2, v, e2)),
                            None => None,
                        }
                    } else if key == key_variables() {
                        match parse_variables_value(s, m + 1) {
                            Some((v2, e2)) => Some((q, v2, e2)),
                            None => None,
                        }
                    } else {
                        match parse_value_span(s, m + 1) {
                            Some((_, e2)) => Some((q, v, e2)),
                            None => None,
                        }
                    };
                    match stepped {
                        None => None,
                        Some((q2, v2, e2)) => if !(m < e2 <= s.len()) {
                            None
                        } else {
                            let p = skip_ws(s, e2);
                            if !(e2 <= p < s.len()) {
                                None
                            } else if s[p] == '}' {
                                Some((EnvelopeView { query: q2, variables: v2 }, p + 1))
                            } else if s[p] == ',' && p + 1 > j {
                                parse_top(s, p + 1, false, q2, v2)
                            } else {
                                None
                            }
                        },
                    }
                }
            },
        }
    }
}

/// Decodes a whole character sequence as an envelope: optional
/// whitespace, one JSON object, optional whitespace, end of input.
pub open spec fn spec_decode(s: Seq<char>) -> Option<EnvelopeView> {
    let k = skip_ws(s, 0);
    if !(0 <= k < s.len()) {
        None
    } else if s[k] != '{' {
        None
    } else {
        match parse_top(s, k + 1, true, None, None) {
            Some((e, end)) => if skip_ws(s, end) == s.len() {
                Some(e)
            } else {
                None
            },
            None => None,
        }
    }
}

/// Indexing into a region of `s` known to equal `t`.
proof fn lemma_sub_index(s: Seq<char>, i: int, t: Seq<char>, a: int)
    requires
        0 <= i,
        i + t.len() <= s.len(),
        s.subrange(i, i + t.len() as int) == t,
        0 <= a < t.len(),
    ensures
        s[i + a] == t[a],
{
    assert(t[a] == s.subrange(i, i + t.len() as int)[a]);
}

/// A sub-region of a region of `s` known to equal `t` equals the same
/// sub-region of `t`.
proof fn lemma_sub_sub(s: Seq<char>, i: int, t: Seq<char>, a: int, b: int)
    requires
        0 <= i,
        i + t.len() <= s.len(),
        s.subrange(i, i + t.len() as int) == t,
        0 <= a <= b <= t.len(),
    ensures
        s.subrange(i + a, i + b) == t.subrange(a, b),
{
    assert forall|x: int| 0 <= x < b - a implies s.subrange(i + a, i + b)[x] == t.subrange(
        a,
        b,
    )[x] by {
        assert(t[a + x] == s.subrange(i, i + t.len() as int)[a + x]);
    }
    assert(s.subrange(i + a, i + b) =~= t.subrange(a, b));
}

/// Escaping distributes over concatenation.
proof fn lemma_esc_str_app(a: Seq<char>, b: Seq<char>)
    ensures
        esc_str(a + b) == esc_str(a) + esc_str(b),
    decreases a.len(),
{
    if a.len() == 0 {
        assert(a + b =~= b);
        assert(esc_str(a) + esc_str(b) =~= esc_str(b));
    } else {
        assert((a + b).len() > 0);
        assert((a + b)[0] == a[0]);
        assert((a + b).drop_first() =~= a.drop_first() + b);
        lemma_esc_str_app(a.drop_first(), b);
        assert(esc_char(a[0]) + (esc_str(a.drop_first()) + esc_str(b)) =~= (esc_char(a[0])
            + esc_str(a.drop_first())) + esc_str(b));
    }
}

/// The escaped form of one more character.
proof fn lemma_esc_str_snoc(s: Seq<char>, c: char)
    ensures
        esc_str(s.push(c)) == esc_str(s) + esc_char(c),
{
    assert(s.push(c) =~= s + seq![c]);
    lemma_esc_str_app(s, seq![c]);
    assert(seq![c].drop_first() =~= Seq::<char>::empty());
    assert(esc_str(seq![c]) == esc_char(c) + esc_str(Seq::<char>::empty()));
    assert(esc_char(c) + Seq::<char>::empty() =~= esc_char(c));
}

/// The scanner runs in lockstep over a copy of a span it accepts: if it
/// consumes exactly all of `t` from state `(depth, in_str, esc)` at
/// position `j`, then over `s`, which holds `t` at `i` followed by a
/// closing delimiter or the end of input, it stops exactly at the end of
/// the copy.
proof fn lemma_raw_lockstep(
    s: Seq<char>,
    i: int,
    t: Seq<char>,
    j: int,
    depth: int,
    in_str: bool,
    esc: bool,
)
    requires
        0 <= i,
        i + t.len() <= s.len(),
        s.subrange(i, i + t.len() as int) == t,
        0 <= j <= t.len(),
        raw_end_from(t, j, depth, in_str, esc) == Some(t.len() as int),
        i + t.len() == s.len() || s[i + t.len()] == ',' || s[i + t.len()] == '}' || s[i + t.len()]
            == ']',
    ensures
        raw_end_from(s, i + j, depth, in_str, esc) == Some(i + t.len()),
    decreases t.len() - j,
{
    if j == t.len() {
        // consuming all of `t` ends in a closed state
        assert(depth == 0 && !in_str);
    } else {
        lemma_sub_index(s, i, t, j);
        let c = t[j];
        if !in_str && depth == 0 && (c == ',' || c == '}' || c == ']') {
            // the scanner would have stopped short of the end of `t`
            assert(raw_end_from(t, j, depth, in_str, esc) == Some(j));
            assert(false);
        } else if in_str {
            if esc {
                lemma_raw_lockstep(s, i, t, j + 1, depth, true, false);
            } else if c == '\\' {
                lemma_raw_lockstep(s, i, t, j + 1, depth, true, true);
            } else if c == '"' {
                lemma_raw_lockstep(s, i, t, j + 1, depth, false, false);
            } else {
                lemma_raw_lockstep(s, i, t, j + 1, depth, true, false);
            }
        } else if c == '{' || c == '[' {
            lemma_raw_lockstep(s, i, t, j + 1, depth + 1, false, false);
        } else if c == '}' || c == ']' {
            assert(depth > 0);
            lemma_raw_lockstep(s, i, t, j + 1, depth - 1, false, false);
        } else if c == '"' {
            lemma_raw_lockstep(s, i, t, j + 1, depth, true, false);
        } else {
            lemma_raw_lockstep(s, i, t, j + 1, depth, false, false);
        }
    }
}

/// A hexadecimal digit reads back as its value.
proof fn lemma_hex_round(n: int)
    requires
        0 <= n < 16,
    ensures
        hex_val(hex_digit(n)) == n,
{
}

/// Parsing inverts escaping: the parser, at the start of the escaped
/// form of `content` followed by a closing quote, returns exactly
/// `content` and stops just past that quote.
proof fn lemma_parse_esc(s: Seq<char>, i: int, content: Seq<char>)
    requires
        0 <= i,
        i + esc_str(content).len() + 1 <= s.len(),
        s.subrange(i, i + esc_str(content).len() as int) == esc_str(content),
        s[i + esc_str(content).len()] == '"',
    ensures
        parse_str_from(s, i) == Some((content, i + esc_str(content).len() + 1)),
    decreases content.len(),
{
    let t = esc_str(content);
    let ln: int = t.len() as int;
    if content.len() == 0 {
        assert(ln == 0);
        assert(s[i] == '"');
        assert(content =~= Seq::<char>::empty());
    } else {
        let c = content[0];
        let rest = content.drop_first();
        let ec = esc_char(c);
        assert(t == ec + esc_str(rest));
        assert(ln == ec.len() + esc_str(rest).len());
        if c == '"' || c == '\\' || c == '\n' || c == '\t' || c == '\r' || c == '\u{0008}' || c
            == '\u{000C}' {
            assert(ec.len() == 2);
            assert(t[0] == '\\' && t[1] == ec[1]);
            lemma_sub_index(s, i, t, 0);
            lemma_sub_index(s, i, t, 1);
            assert(s[i] == '\\');
            assert(s[i + 1] != 'u');
            lemma_sub_sub(s, i, t, 2, ln);
            assert(t.subrange(2, ln) =~= esc_str(rest));
            lemma_parse_esc(s, i + 2, rest);
            assert(seq![c] + rest =~= content);
        } else if (c as u32) < 32 {
            let u: int = (c as u32) as int;
            let hi: int = u / 16;
            let lo: int = u % 16;
            assert(ec.len() == 6);
            assert(ec[0] == '\\' && ec[1] == 'u' && ec[2] == '0' && ec[3] == '0' && ec[4]
                == hex_digit(hi) && ec[5] == hex_digit(lo));
            lemma_sub_index(s, i, t, 0);
            lemma_sub_index(s, i, t, 1);
            lemma_sub_index(s, i, t, 2);
            lemma_sub_index(s, i, t, 3);
            lemma_sub_index(s, i, t, 4);
            lemma_sub_index(s, i, t, 5);
            lemma_hex_round(hi);
            lemma_hex_round(lo);
            assert(hex_val('0') == 0);
            assert(hex4(s, i + 2) == 0 * 4096 + 0 * 256 + hi * 16 + lo);
            assert(hi * 16 + lo == u);
            let h1 = hex4(s, i + 2);
            assert(h1 == u);
            assert(0 <= h1 < 32);
            assert((h1 as u32) == c as u32);
            vstd::utf8::char_u32_cast(c, c as u32);
            assert(((h1 as u32) as char) == c);
            lemma_sub_sub(s, i, t, 6, ln);
            assert(t.subrange(6, ln) =~= esc_str(rest));
            lemma_parse_esc(s, i + 6, rest);
            assert(seq![c] + rest =~= content);
        } else {
            assert((c as u32) >= 32 && c != '"' && c != '\\');
            assert(ec.len() == 1 && t[0] == c);
            lemma_sub_index(s, i, t, 0);
            assert(s[i] == c);
            lemma_sub_sub(s, i, t, 1, ln);
            assert(t.subrange(1, ln) =~= esc_str(rest));
            lemma_parse_esc(s, i + 1, rest);
            assert(seq![c] + rest =~= content);
        }
    }
}

/// Parsing inverts the encoding of a string token standing at `i`:
/// returns the content and stops just past the closing quote.
proof fn lemma_parse_text_token(s: Seq<char>, i: int, content: Seq<char>)
    requires
        0 <= i,
        i + enc_text(content).len() <= s.len(),
        s.subrange(i, i + enc_text(content).len() as int) == enc_text(content),
    ensures
        s[i] == '"',
        parse_str_from(s, i + 1) == Some((content, i + enc_text(content).len())),
    decreases content.len(),
{
    let kt = enc_text(content);
    let lesc: int = esc_str(content).len() as int;
    assert(kt.len() == lesc + 2);
    assert(kt[0] == '"');
    assert(kt[1 + lesc] == '"');
    lemma_sub_index(s, i, kt, 0);
    lemma_sub_index(s, i, kt, 1 + lesc);
    lemma_sub_sub(s, i, kt, 1, 1 + lesc);
    assert(kt.subrange(1, 1 + lesc) =~= esc_str(content));
    lemma_parse_esc(s, i + 1, content);
}

/// Parsing inverts the encoding of the members of a `variables` object:
/// the member parser at the start of the encoded entries, with the
/// closing brace just past them, returns exactly those entries.
proof fn lemma_parse_entries_enc(
    s: Seq<char>,
    i: int,
    entries: Seq<(Seq<char>, VarValueView)>,
    first: bool,
)
    requires
        entries.len() > 0,
        forall|x: int| 0 <= x < entries.len() ==> wf_var_value((#[trigger] entries[x]).1),
        0 <= i,
        i + enc_entries(entries).len() < s.len(),
        s.subrange(i, i + enc_entries(entries).len() as int) == enc_entries(entries),
        s[i + enc_entries(entries).len()] == '}',
    ensures
        parse_entries(s, i, first) == Some((entries, i + enc_entries(entries).len() + 1)),
    decreases entries.len(),
{
    let key = entries[0].0;
    let v0 = entries[0].1;
    let kt = enc_text(key);
    let lk: int = kt.len() as int;
    let vv = enc_var_value(v0);
    let lv: int = vv.len() as int;
    let head = kt + seq![':'] + vv;
    let lh: int = head.len() as int;
    let tt = enc_entries(entries);
    let lt: int = tt.len() as int;
    assert(wf_var_value(v0));
    assert(tt == if entries.len() == 1 {
        head
    } else {
        head + seq![','] + enc_entries(entries.drop_first())
    });
    assert(lh == lk + 1 + lv);
    // the head region of `tt`, then its pieces
    assert(tt.subrange(0, lh) =~= head);
    lemma_sub_sub(s, i, tt, 0, lh);
    assert(head.subrange(0, lk) =~= kt);
    lemma_sub_sub(s, i, head, 0, lk);
    lemma_parse_text_token(s, i, key);
    let e1: int = i + lk;
    assert(!is_ws('"'));
    assert(skip_ws(s, i) == i);
    assert(head[lk] == ':');
    lemma_sub_index(s, i, head, lk);
    assert(s[e1] == ':');
    assert(skip_ws(s, e1) == e1);
    // the value region
    assert(head.subrange(lk + 1, lh) =~= vv);
    lemma_sub_sub(s, i, head, lk + 1, lh);
    let e2: int = i + lh;
    // what follows the value: a comma or the closing brace
    if entries.len() == 1 {
        assert(e2 == i + lt);
    } else {
        assert(tt[lh] == ',');
        lemma_sub_index(s, i, tt, lh);
        assert(s[e2] == ',');
    }
    match v0 {
        VarValueView::Text(tv) => {
            lemma_parse_text_token(s, e1 + 1, tv);
            assert(s[e1 + 1] == '"');
            assert(skip_ws(s, e1 + 1) == e1 + 1);
            assert(parse_value_span(s, e1 + 1) == Some((v0, e2)));
        },
        VarValueView::Raw(t) => {
            assert(wf_raw(t));
            assert(s[e1 + 1] == t[0]) by {
                lemma_sub_index(s, e1 + 1, t, 0);
            }
            assert(skip_ws(s, e1 + 1) == e1 + 1);
            lemma_raw_lockstep(s, e1 + 1, t, 0, 0, false, false);
            assert(raw_end_from(s, e1 + 1, 0, false, false) == Some(e2));
            assert(s.subrange(e1 + 1, e2) == t);
            assert(parse_value_span(s, e1 + 1) == Some((v0, e2)));
        },
    }
    let p: int = e2;
    if entries.len() == 1 {
        assert(s[p] == '}');
        assert(skip_ws(s, p) == p);
        assert(seq![(key, v0)] =~= entries);
        assert(parse_entries(s, i, first) == Some((entries, i + lt + 1)));
    } else {
        assert(s[p] == ',');
        assert(skip_ws(s, p) == p);
        let rest = entries.drop_first();
        assert forall|x: int| 0 <= x < rest.len() implies wf_var_value(
            (#[trigger] rest[x]).1,
        ) by {
            assert(rest[x] == entries[x + 1]);
        }
        assert(tt.subrange(lh + 1, lt) =~= enc_entries(rest));
        lemma_sub_sub(s, i, tt, lh + 1, lt);
        lemma_parse_entries_enc(s, p + 1, rest, false);
        assert(parse_entries(s, p + 1, false) == Some((rest, i + lt + 1)));
        assert(seq![(key, v0)] + rest =~= entries);
        assert(parse_entries(s, i, first) == Some((entries, i + lt + 1)));
    }
}

/// How the parser walks an encoded `query` member standing at `j`.
proof fn lemma_member_query(s: Seq<char>, j: int, q: Seq<char>)
    requires
        0 <= j,
        j + enc_query_member(q).len() <= s.len(),
        s.subrange(j, j + enc_query_member(q).len() as int) == enc_query_member(q),
    ensures
        skip_ws(s, j) == j,
        s[j] == '"',
        parse_str_from(s, j + 1) == Some((key_query(), j + enc_text(key_query()).len() as int)),
        s[j + enc_text(key_query()).len()] == ':',
        skip_ws(s, j + enc_text(key_query()).len() as int) == j + enc_text(key_query()).len(),
        parse_query_value(s, j + enc_text(key_query()).len() + 1) == Some(
            (Some(q), j + enc_query_member(q).len() as int),
        ),
{
    let kt = enc_text(key_query());
    let lk: int = kt.len() as int;
    let qt = enc_text(q);
    let qm = enc_query_member(q);
    let lm: int = qm.len() as int;
    assert(lm == lk + 1 + qt.len());
    assert(qm.subrange(0, lk) =~= kt);
    lemma_sub_sub(s, j, qm, 0, lk);
    lemma_parse_text_token(s, j, key_query());
    assert(skip_ws(s, j) == j);
    assert(qm[lk] == ':');
    lemma_sub_index(s, j, qm, lk);
    assert(skip_ws(s, j + lk) == j + lk);
    assert(qm.subrange(lk + 1, lm) =~= qt);
    lemma_sub_sub(s, j, qm, lk + 1, lm);
    lemma_parse_text_token(s, j + lk + 1, q);
    assert(skip_ws(s, j + lk + 1) == j + lk + 1);
    assert(parse_value_span(s, j + lk + 1) == Some((VarValueView::Text(q), j + lm)));
}

/// How the parser walks an encoded `variables` member standing at `j`.
proof fn lemma_member_variables(s: Seq<char>, j: int, entries: Seq<(Seq<char>, VarValueView)>)
    requires
        forall|x: int| 0 <= x < entries.len() ==> wf_var_value((#[trigger] entries[x]).1),
        0 <= j,
        j + enc_variables_member(entries).len() <= s.len(),
        s.subrange(j, j + enc_variables_member(entries).len() as int) == enc_variables_member(
            entries,
        ),
    ensures
        skip_ws(s, j) == j,
        s[j] == '"',
        parse_str_from(s, j + 1) == Some(
            (key_variables(), j + enc_text(key_variables()).len() as int),
        ),
        s[j + enc_text(key_variables()).len()] == ':',
        skip_ws(s, j + enc_text(key_variables()).len() as int) == j + enc_text(
            key_variables(),
        ).len(),
        parse_variables_value(s, j + enc_text(key_variables()).len() + 1) == Some(
            (Some(entries), j + enc_variables_member(entries).len() as int),
        ),
{
    let kt = enc_text(key_variables());
    let lk: int = kt.len() as int;
    let et = enc_entries(entries);
    let le: int = et.len() as int;
    let vm = enc_variables_member(entries);
    let lm: int = vm.len() as int;
    assert(lm == lk + 1 + 1 + le + 1);
    assert(vm.subrange(0, lk) =~= kt);
    lemma_sub_sub(s, j, vm, 0, lk);
    lemma_parse_text_token(s, j, key_variables());
    assert(skip_ws(s, j) == j);
    assert(vm[lk] == ':');
    lemma_sub_index(s, j, vm, lk);
    assert(skip_ws(s, j + lk) == j + lk);
    assert(vm[lk + 1] == '{');
    lemma_sub_index(s, j, vm, lk + 1);
    assert(skip_ws(s, j + lk + 1) == j + lk + 1);
    assert(vm[lm - 1] == '}');
    lemma_sub_index(s, j, vm, lm - 1);
    assert(s[j + lm - 1] == '}');
    let inner: int = j + lk + 2;
    if entries.len() == 0 {
        assert(le == 0);
        assert(inner == j + lm - 1);
        assert(skip_ws(s, inner) == inner);
        assert(parse_entries(s, inner, true) == Some(
            (Seq::<(Seq<char>, VarValueView)>::empty(), inner + 1),
        ));
        assert(Seq::<(Seq<char>, VarValueView)>::empty() =~= entries);
    } else {
        assert(vm.subrange(lk + 2, lm - 1) =~= et);
        lemma_sub_sub(s, j, vm, lk + 2, lm - 1);
        lemma_parse_entries_enc(s, inner, entries, true);
    }
    assert(parse_entries(s, inner, true) == Some((entries, j + lm)));
}

/// Round trip, the envelope with neither member.
proof fn lemma_decode_encode_none(e: EnvelopeView)
    requires
        wf_envelope(e),
        e.query is None,
        e.variables is None,
    ensures
        spec_decode(spec_encode(e)) == Some(e),
{
    let s = spec_encode(e);
    let ls: int = s.len() as int;
    assert(s[0] == '{');
    assert(skip_ws(s, 0) == 0);
    assert(ls == 2);
    assert(s[1] == '}');
    assert(skip_ws(s, 1) == 1);
    assert(parse_top(s, 1, true, None, None) == Some(
        (EnvelopeView { query: None, variables: None }, 2int),
    ));
    assert(skip_ws(s, 2) == 2);
    assert(EnvelopeView { query: None, variables: None } == e);
}

/// Round trip, the envelope with only a `query` member.
proof fn lemma_decode_encode_q(e: EnvelopeView, q: Seq<char>)
    requires
        wf_envelope(e),
        e.query == Some(q),
        e.variables is None,
    ensures
        spec_decode(spec_encode(e)) == Some(e),
{
    let s = spec_encode(e);
    let ls: int = s.len() as int;
    assert(s[0] == '{');
    assert(skip_ws(s, 0) == 0);
    assert(s[ls - 1] == '}');
    {
        {
            let qm = enc_query_member(q);
            let lm: int = qm.len() as int;
            assert(ls == lm + 2);
            assert(s.subrange(1, 1 + lm) =~= qm);
            lemma_member_query(s, 1, q);
            let e2: int = 1 + lm;
            assert(s[e2] == '}');
            assert(skip_ws(s, e2) == e2);
            assert(key_query() == key_query());
            assert(parse_top(s, 1, true, None, None) == Some(
                (EnvelopeView { query: Some(q), variables: None }, ls),
            ));
            assert(skip_ws(s, ls) == ls);
            assert(EnvelopeView { query: Some(q), variables: None } == e);
        }
    }
}

/// How the top-level parser finishes on a `variables` member standing
/// last, the closing brace right after it.
#[verifier::rlimit(100)]
proof fn lemma_top_variables_member(
    s: Seq<char>,
    j: int,
    first: bool,
    qa: Option<Seq<char>>,
    entries: Seq<(Seq<char>, VarValueView)>,
)
    requires
        forall|x: int| 0 <= x < entries.len() ==> wf_var_value((#[trigger] entries[x]).1),
        0 <= j,
        j + enc_variables_member(entries).len() < s.len(),
        s.subrange(j, j + enc_variables_member(entries).len() as int) == enc_variables_member(
            entries,
        ),
        s[j + enc_variables_member(entries).len()] == '}',
    ensures
        parse_top(s, j, first, qa, None) == Some(
            (
                EnvelopeView { query: qa, variables: Some(entries) },
                j + enc_variables_member(entries).len() + 1,
            ),
        ),
{
    let lm: int = enc_variables_member(entries).len() as int;
    lemma_member_variables(s, j, entries);
    let e2: int = j + lm;
    assert(skip_ws(s, e2) == e2);
    assert(key_variables() != key_query());
    assert(parse_top(s, j, first, qa, None) == Some(
        (EnvelopeView { query: qa, variables: Some(entries) }, e2 + 1),
    ));
}

/// Round trip, the envelope with only a `variables` member.
proof fn lemma_decode_encode_v(e: EnvelopeView, entries: Seq<(Seq<char>, VarValueView)>)
    requires
        wf_envelope(e),
        e.query is None,
        e.variables == Some(entries),
    ensures
        spec_decode(spec_encode(e)) == Some(e),
{
    let s = spec_encode(e);
    let ls: int = s.len() as int;
    assert(s[0] == '{');
    assert(skip_ws(s, 0) == 0);
    assert(s[ls - 1] == '}');
    let vm = enc_variables_member(entries);
    let lm: int = vm.len() as int;
    assert(ls == lm + 2);
    assert(s.subrange(1, 1 + lm) =~= vm);
    lemma_top_variables_member(s, 1, true, None, entries);
    assert(skip_ws(s, ls) == ls);
    assert(EnvelopeView { query: None, variables: Some(entries) } == e);
}

/// How the top-level parser steps over a `query` member followed by a
/// comma: it records the query text and continues after the comma.
#[verifier::rlimit(100)]
proof fn lemma_top_query_comma(
    s: Seq<char>,
    j: int,
    first: bool,
    va: Option<Seq<(Seq<char>, VarValueView)>>,
    q: Seq<char>,
)
    requires
        0 <= j,
        j + enc_query_member(q).len() < s.len(),
        s.subrange(j, j + enc_query_member(q).len() as int) == enc_query_member(q),
        s[j + enc_query_member(q).len()] == ',',
    ensures
        parse_top(s, j, first, None, va) == parse_top(
            s,
            j + enc_query_member(q).len() + 1,
            false,
            Some(q),
            va,
        ),
{
    let lq: int = enc_query_member(q).len() as int;
    lemma_member_query(s, j, q);
    let e2: int = j + lq;
    assert(skip_ws(s, e2) == e2);
    assert(parse_top(s, j, first, None, va) == parse_top(s, e2 + 1, false, Some(q), va));
}

/// Round trip, the envelope with both members.
#[verifier::rlimit(100)]
#[verifier::spinoff_prover]
proof fn lemma_decode_encode_qv(
    e: EnvelopeView,
    q: Seq<char>,
    entries: Seq<(Seq<char>, VarValueView)>,
)
    requires
        wf_envelope(e),
        e.query == Some(q),
        e.variables == Some(entries),
    ensures
        spec_decode(spec_encode(e)) == Some(e),
{
    let s = spec_encode(e);
    let ls: int = s.len() as int;
    assert(s[0] == '{');
    assert(skip_ws(s, 0) == 0);
    assert(s[ls - 1] == '}');
    let qm = enc_query_member(q);
    let lq: int = qm.len() as int;
    let vm = enc_variables_member(entries);
    let lv: int = vm.len() as int;
    let inner = qm + seq![','] + vm;
    let li: int = inner.len() as int;
    assert(ls == li + 2);
    assert(s.subrange(1, 1 + li) =~= inner);
    assert(inner.subrange(0, lq) =~= qm);
    lemma_sub_sub(s, 1, inner, 0, lq);
    let e2: int = 1 + lq;
    assert(inner[lq] == ',');
    lemma_sub_index(s, 1, inner, lq);
    assert(s[e2] == ',');
    lemma_top_query_comma(s, 1, true, None, q);
    assert(inner.subrange(lq + 1, li) =~= vm);
    lemma_sub_sub(s, 1, inner, lq + 1, li);
    let e3: int = e2 + 1 + lv;
    assert(e3 == ls - 1);
    assert(s[e3] == '}');
    lemma_top_variables_member(s, e2 + 1, false, Some(q), entries);
    assert(parse_top(s, 1, true, None, None) == Some(
        (EnvelopeView { query: Some(q), variables: Some(entries) }, ls),
    ));
    assert(skip_ws(s, ls) == ls);
    assert(EnvelopeView { query: Some(q), variables: Some(entries) } == e);
}

/// Round trip: decoding the deterministic encoding of any valid
/// envelope yields that envelope back, member for member.
pub proof fn lemma_decode_encode(e: EnvelopeView)
    requires
        wf_envelope(e),
    ensures
        spec_decode(spec_encode(e)) == Some(e),
{
    match (e.query, e.variables) {
        (None, None) => lemma_decode_encode_none(e),
        (Some(q), None) => lemma_decode_encode_q(e, q),
        (None, Some(entries)) => lemma_decode_encode_v(e, entries),
        (Some(q), Some(entries)) => lemma_decode_encode_qv(e, q, entries),
    }
}

/// A decode failure: the body is not UTF-8 text, or the text is not an
/// envelope-shaped JSON object.
#[derive(PartialEq, Eq, Structural, Clone, Copy, Debug)]
pub enum DecodeError {
    InvalidEncoding,
    InvalidStructure,
}

/// Relies on String::from_utf8: it returns the string whose UTF-8
/// encoding is the given byte sequence, and fails exactly when the bytes
/// are not valid UTF-8.
#[verifier::external_body]
pub(crate) fn utf8_to_string(b: &Vec<u8>) -> (r: Option<String>)
    ensures
        r matches Some(s) ==> valid_utf8(b@) && s@ == decode_utf8(b@),
        r is None ==> !valid_utf8(b@),
{
    match String::from_utf8(b.clone()) {
        Ok(s) => Some(s),
        Err(_) => None,
    }
}

/// Relies on str::chars: it yields exactly the characters of the string,
/// in order.
#[verifier::external_body]
pub(crate) fn string_chars(s: &str) -> (r: Vec<char>)
    ensures
        r@ == s@,
{
    s.chars().collect()
}

/// Relies on String::from_iter for characters: the resulting string
/// holds exactly the characters handed to it, in order.
#[verifier::external_body]
pub(crate) fn chars_to_string(v: &Vec<char>) -> (r: String)
    ensures
        r@ == v@,
{
    v.iter().collect()
}

/// Escaping text that needs no escapes leaves it as it stands.
proof fn lemma_esc_str_plain(s: Seq<char>)
    requires
        forall|i: int|
            0 <= i < s.len() ==> (#[trigger] s[i] as u32) >= 32 && s[i] != '"' && s[i] != '\\',
    ensures
        esc_str(s) == s,
    decreases s.len(),
{
    if s.len() == 0 {
        assert(esc_str(s) =~= s);
    } else {
        assert forall|i: int| 0 <= i < s.drop_first().len() implies (#[trigger] s.drop_first()[i]
            as u32) >= 32 && s.drop_first()[i] != '"' && s.drop_first()[i] != '\\' by {
            assert(s.drop_first()[i] == s[i + 1]);
        }
        lemma_esc_str_plain(s.drop_first());
        assert(seq![s[0]] + s.drop_first() =~= s);
    }
}

/// One more entry at the end of a `variables` object.
proof fn lemma_enc_entries_snoc(a: Seq<(Seq<char>, VarValueView)>, x: (Seq<char>, VarValueView))
    requires
        a.len() >= 1,
    ensures
        enc_entries(a.push(x)) == enc_entries(a) + seq![','] + (enc_text(x.0) + seq![':']
            + enc_var_value(x.1)),
    decreases a.len(),
{
    let hx = enc_text(x.0) + seq![':'] + enc_var_value(x.1);
    if a.len() == 1 {
        assert(a.push(x).len() == 2);
        assert(a.push(x)[0] == a[0]);
        assert(a.push(x).drop_first() =~= seq![x]);
        assert(enc_entries(seq![x]) == hx);
        let h0 = enc_text(a[0].0) + seq![':'] + enc_var_value(a[0].1);
        assert(enc_entries(a.push(x)) == h0 + seq![','] + enc_entries(seq![x]));
        assert(enc_entries(a) == h0);
    } else {
        let h0 = enc_text(a[0].0) + seq![':'] + enc_var_value(a[0].1);
        assert(a.push(x).len() >= 3);
        assert(a.push(x)[0] == a[0]);
        assert(a.push(x).drop_first() =~= a.drop_first().push(x));
        lemma_enc_entries_snoc(a.drop_first(), x);
        assert(enc_entries(a.push(x)) == h0 + seq![','] + (enc_entries(a.drop_first()) + seq![',']
            + hx));
        assert(enc_entries(a) == h0 + seq![','] + enc_entries(a.drop_first()));
        assert(h0 + seq![','] + (enc_entries(a.drop_first()) + seq![','] + hx) =~= (h0 + seq![',']
            + enc_entries(a.drop_first())) + seq![','] + hx);
    }
}

/// Relies on char::from_u32: it returns the character with that scalar
/// value, and fails exactly on surrogate values and values past the
/// last code point.
#[verifier::external_body]
fn char_from_u32(u: u32) -> (r: Option<char>)
    ensures
        r matches Some(c) ==> c as u32 == u,
        r is Some <==> (u < 0xD800 || (0xE000 <= u && u < 0x110000)),
{
    char::from_u32(u)
}

/// The lower-case hexadecimal digit for a value below sixteen.
fn hex_digit_exec(n: u8) -> (r: char)
    requires
        n < 16,
    ensures
        r == hex_digit(n as int),
{
    if n == 0 {
        '0'
    } else if n == 1 {
        '1'
    } else if n == 2 {
        '2'
    } else if n == 3 {
        '3'
    } else if n == 4 {
        '4'
    } else if n == 5 {
        '5'
    } else if n == 6 {
        '6'
    } else if n == 7 {
        '7'
    } else if n == 8 {
        '8'
    } else if n == 9 {
        '9'
    } else if n == 10 {
        'a'
    } else if n == 11 {
        'b'
    } else if n == 12 {
        'c'
    } else if n == 13 {
        'd'
    } else if n == 14 {
        'e'
    } else {
        'f'
    }
}

/// The value of one hexadecimal digit, or nothing.
fn hexv(c: char) -> (r: Option<u8>)
    ensures
        match r {
            Some(x) => hex_val(c) == x as int && x < 16,
            None => hex_val(c) < 0,
        },
{
    let u = c as u32;
    if 48 <= u && u <= 57 {
        Some((u - 48) as u8)
    } else if 97 <= u && u <= 102 {
        Some((u - 87) as u8)
    } else if 65 <= u && u <= 70 {
        Some((u - 55) as u8)
    } else {
        None
    }
}

/// The value of four hexadecimal digits starting at `p`, or nothing.
fn hex4_at(v: &Vec<char>, p: usize) -> (r: Option<u32>)
    ensures
        match r {
            Some(x) => hex4(v@, p as int) == x as int && x < 0x10000,
            None => hex4(v@, p as int) < 0,
        },
{
    if v.len() < 4 || p > v.len() - 4 {
        return None;
    }
    let a = match hexv(v[p]) {
        Some(x) => x,
        None => {
            return None;
        },
    };
    let b = match hexv(v[p + 1]) {
        Some(x) => x,
        None => {
            return None;
        },
    };
    let c = match hexv(v[p + 2]) {
        Some(x) => x,
        None => {
            return None;
        },
    };
    let d = match hexv(v[p + 3]) {
        Some(x) => x,
        None => {
            return None;
        },
    };
    Some((a as u32) * 4096 + (b as u32) * 256 + (c as u32) * 16 + (d as u32))
}

/// Appends the escaped form of `s` to `out`.
fn push_escaped(out: &mut Vec<char>, s: &String)
    ensures
        final(out)@ == old(out)@.add(esc_str(s@)),
{
    let cs = string_chars(s.as_str());
    let ghost start = out@;
    let mut i: usize = 0;
    proof {
        assert(s@.take(0) =~= Seq::<char>::empty());
        assert(esc_str(s@.take(0)) =~= Seq::<char>::empty());
        assert(start + esc_str(s@.take(0)) =~= start);
    }
    while i < cs.len()
        invariant
            cs@ == s@,
            0 <= i <= cs@.len(),
            out@ == start + esc_str(s@.take(i as int)),
        decreases cs@.len() - i,
    {
        let c = cs[i];
        let ghost prev = out@;
        if c == '"' {
            out.push('\\');
            out.push('"');
        } else if c == '\\' {
            out.push('\\');
            out.push('\\');
        } else if c == '\n' {
            out.push('\\');
            out.push('n');
        } else if c == '\t' {
            out.push('\\');
            out.push('t');
        } else if c == '\r' {
            out.push('\\');
            out.push('r');
        } else if c == '\u{0008}' {
            out.push('\\');
            out.push('b');
        } else if c == '\u{000C}' {
            out.push('\\');
            out.push('f');
        } else if (c as u32) < 32 {
            out.push('\\');
            out.push('u');
            out.push('0');
            out.push('0');
            let u = c as u32;
            out.push(hex_digit_exec((u / 16) as u8));
            out.push(hex_digit_exec((u % 16) as u8));
        } else {
            out.push(c);
        }
        proof {
            assert(out@ =~= prev + esc_char(c));
            lemma_esc_str_snoc(s@.take(i as int), c);
            assert(s@.take(i as int).push(c) =~= s@.take(i + 1));
            assert(start + (esc_str(s@.take(i as int)) + esc_char(c)) =~= (start + esc_str(
                s@.take(i as int),
            )) + esc_char(c));
        }
        i += 1;
    }
    proof {
        assert(s@.take(cs@.len() as int) =~= s@);
    }
}

/// Appends a whole string token, quotes and escapes included.
fn push_text_token(out: &mut Vec<char>, s: &String)
    ensures
        final(out)@ == old(out)@.add(enc_text(s@)),
{
    let ghost start = out@;
    out.push('"');
    push_escaped(out, s);
    out.push('"');
    proof {
        assert(out@ =~= start + enc_text(s@));
    }
}

/// Appends the characters of `s` as they stand.
pub(crate) fn push_verbatim(out: &mut Vec<char>, s: &String)
    ensures
        final(out)@ == old(out)@.add(s@),
{
    let cs = string_chars(s.as_str());
    let ghost start = out@;
    let mut i: usize = 0;
    proof {
        assert(start + s@.take(0) =~= start);
    }
    while i < cs.len()
        invariant
            cs@ == s@,
            0 <= i <= cs@.len(),
            out@ == start + s@.take(i as int),
        decreases cs@.len() - i,
    {
        out.push(cs[i]);
        proof {
            assert(start + s@.take(i as int + 1) =~= (start + s@.take(i as int)).push(s@[i as int]));
        }
        i += 1;
    }
    proof {
        assert(s@.take(cs@.len() as int) =~= s@);
    }
}

/// Appends the token `"query"`.
fn push_key_query(out: &mut Vec<char>)
    ensures
        final(out)@ == old(out)@.add(enc_text(key_query())),
{
    let ghost start = out@;
    out.push('"');
    out.push('q');
    out.push('u');
    out.push('e');
    out.push('r');
    out.push('y');
    out.push('"');
    proof {
        assert forall|i: int| 0 <= i < key_query().len() implies (#[trigger] key_query()[i]
            as u32) >= 32 && key_query()[i] != '"' && key_query()[i] != '\\' by {
            if i == 0 {
            } else if i == 1 {
            } else if i == 2 {
            } else if i == 3 {
            } else {
                assert(i == 4);
            }
        }
        lemma_esc_str_plain(key_query());
        assert(out@ =~= start + enc_text(key_query()));
    }
}

/// Appends the token `"variables"`.
fn push_key_variables(out: &mut Vec<char>)
    ensures
        final(out)@ == old(out)@.add(enc_text(key_variables())),
{
    let ghost start = out@;
    out.push('"');
    out.push('v');
    out.push('a');
    out.push('r');
    out.push('i');
    out.push('a');
    out.push('b');
    out.push('l');
    out.push('e');
    out.push('s');
    out.push('"');
    proof {
        assert forall|i: int| 0 <= i < key_variables().len() implies (#[trigger] key_variables()[
            i] as u32) >= 32 && key_variables()[i] != '"' && key_variables()[i] != '\\' by {
            if i < 5 {
            } else {
                assert(5 <= i < 9);
            }
        }
        lemma_esc_str_plain(key_variables());
        assert(out@ =~= start + enc_text(key_variables()));
    }
}

/// Appends one `variables` entry: key token, colon, value.
fn push_entry(out: &mut Vec<char>, key: &String, v: &VarValue)
    ensures
        final(out)@ == old(out)@.add(enc_text(key@) + seq![':'] + enc_var_value(v@)),
{
    let ghost start = out@;
    push_text_token(out, key);
    out.push(':');
    match v {
        VarValue::Text(s) => push_text_token(out, s),
        VarValue::Raw(t) => push_verbatim(out, t),
    }
    proof {
        assert(out@ =~= start + (enc_text(key@) + seq![':'] + enc_var_value(v@)));
    }
}

/// Appends the members of the `variables` object, comma separated.
fn push_entries(out: &mut Vec<char>, entries: &Vec<(String, VarValue)>)
    ensures
        final(out)@ == old(out)@.add(
            enc_entries(entries@.map_values(|p: (String, VarValue)| (p.0@, p.1@))),
        ),
{
    let ghost ev = entries@.map_values(|p: (String, VarValue)| (p.0@, p.1@));
    let ghost start = out@;
    if entries.len() == 0 {
        proof {
            assert(ev.len() == 0);
            assert(start + enc_entries(ev) =~= start);
        }
        return ;
    }
    let (k0, v0) = (&entries[0].0, &entries[0].1);
    push_entry(out, k0, v0);
    proof {
        assert(ev.take(1).len() == 1);
        assert(ev.take(1)[0] == ev[0]);
        assert(ev[0] == (entries@[0].0@, entries@[0].1@));
        assert(enc_entries(ev.take(1)) == enc_text(ev[0].0) + seq![':'] + enc_var_value(ev[0].1));
        assert(out@ == start + enc_entries(ev.take(1)));
    }
    let mut i: usize = 1;
    while i < entries.len()
        invariant
            ev == entries@.map_values(|p: (String, VarValue)| (p.0@, p.1@)),
            1 <= i <= entries@.len(),
            ev.len() == entries@.len(),
            out@ == start + enc_entries(ev.take(i as int)),
        decreases entries@.len() - i,
    {
        let ghost prev = out@;
        out.push(',');
        let (k, v) = (&entries[i].0, &entries[i].1);
        push_entry(out, k, v);
        proof {
            let hx = enc_text(ev[i as int].0) + seq![':'] + enc_var_value(ev[i as int].1);
            assert(ev[i as int] == (entries@[i as int].0@, entries@[i as int].1@));
            assert(out@ =~= prev + seq![','] + hx);
            lemma_enc_entries_snoc(ev.take(i as int), ev[i as int]);
            assert(ev.take(i as int).push(ev[i as int]) =~= ev.take(i as int + 1));
            assert((start + enc_entries(ev.take(i as int))) + seq![','] + hx =~= start + (
            enc_entries(ev.take(i as int)) + seq![','] + hx));
        }
        i += 1;
    }
    proof {
        assert(ev.take(entries@.len() as int) =~= ev);
    }
}

/// Encodes an envelope deterministically into UTF-8 bytes: a compact
/// JSON object with the `query` member first, absent members omitted.
pub fn encode_envelope(e: &RequestEnvelope) -> (r: Vec<u8>)
    ensures
        r@ == encode_utf8(spec_encode(e@)),
        valid_utf8(r@),
        decode_utf8(r@) == spec_encode(e@),
{
    let mut out: Vec<char> = Vec::new();
    out.push('{');
    match (&e.query, &e.variables) {
        (None, None) => {},
        (Some(q), None) => {
            push_key_query(&mut out);
            out.push(':');
            push_text_token(&mut out, q);
        },
        (None, Some(entries)) => {
            push_key_variables(&mut out);
            out.push(':');
            out.push('{');
            push_entries(&mut out, entries);
            out.push('}');
        },
        (Some(q), Some(entries)) => {
            push_key_query(&mut out);
            out.push(':');
            push_text_token(&mut out, q);
            out.push(',');
            push_key_variables(&mut out);
            out.push(':');
            out.push('{');
            push_entries(&mut out, entries);
            out.push('}');
        },
    }
    out.push('}');
    proof {
        assert(out@ =~= spec_encode(e@));
    }
    let s = chars_to_string(&out);
    let r = s.as_str().as_bytes_vec();
    proof {
        vstd::utf8::encode_utf8_valid_utf8(spec_encode(e@));
        vstd::utf8::encode_utf8_decode_utf8(spec_encode(e@));
    }
    r
}

/// Prepends already-parsed string content to a parse result.
pub open spec fn str_glue(acc: Seq<char>, r: Option<(Seq<char>, int)>) -> Option<(Seq<char>, int)> {
    match r {
        Some(pr) => Some((acc + pr.0, pr.1)),
        None => None,
    }
}

proof fn lemma_str_glue_assoc(a: Seq<char>, b: Seq<char>, r: Option<(Seq<char>, int)>)
    ensures
        str_glue(a, str_glue(b, r)) == str_glue(a + b, r),
{
    if r is Some {
        let pr = r->Some_0;
        assert(a + (b + pr.0) =~= (a + b) + pr.0);
    }
}

/// Prepends already-parsed entries to a parse result.
pub open spec fn ent_glue(
    acc: Seq<(Seq<char>, VarValueView)>,
    r: Option<(Seq<(Seq<char>, VarValueView)>, int)>,
) -> Option<(Seq<(Seq<char>, VarValueView)>, int)> {
    match r {
        Some(pr) => Some((acc + pr.0, pr.1)),
        None => None,
    }
}

proof fn lemma_ent_glue_assoc(
    a: Seq<(Seq<char>, VarValueView)>,
    b: Seq<(Seq<char>, VarValueView)>,
    r: Option<(Seq<(Seq<char>, VarValueView)>, int)>,
)
    ensures
        ent_glue(a, ent_glue(b, r)) == ent_glue(a + b, r),
{
    if r is Some {
        let pr = r->Some_0;
        assert(a + (b + pr.0) =~= (a + b) + pr.0);
    }
}

/// The deep view of an entry list.
pub open spec fn entries_view(a: Seq<(String, VarValue)>) -> Seq<(Seq<char>, VarValueView)> {
    a.map_values(|p: (String, VarValue)| (p.0@, p.1@))
}

/// Advances past whitespace.
fn ws_skip(v: &Vec<char>, j: usize) -> (r: usize)
    requires
        j <= v@.len(),
    ensures
        r as int == skip_ws(v@, j as int),
        j <= r <= v@.len(),
{
    let mut i: usize = j;
    while i < v.len() && (v[i] == ' ' || v[i] == '\n' || v[i] == '\t' || v[i] == '\r')
        invariant
            j <= i <= v@.len(),
            skip_ws(v@, j as int) == skip_ws(v@, i as int),
        decreases v@.len() - i,
    {
        i += 1;
    }
    i
}

/// Parses string content from just after an opening quote, mirroring
/// `parse_str_from`.
fn str_parse(v: &Vec<char>, j: usize) -> (r: Option<(Vec<char>, usize)>)
    requires
        j <= v@.len(),
    ensures
        match r {
            Some(pr) => parse_str_from(v@, j as int) == Some((pr.0@, pr.1 as int)) && j < pr.1
                <= v@.len(),
            None => parse_str_from(v@, j as int) is None,
        },
{
    let mut acc: Vec<char> = Vec::new();
    let mut i: usize = j;
    loop
        invariant
            j <= i <= v@.len(),
            str_glue(acc@, parse_str_from(v@, i as int)) == parse_str_from(v@, j as int),
        decreases v@.len() - i,
    {
        if i >= v.len() {
            return None;
        }
        let c = v[i];
        if c == '"' {
            proof {
                assert(parse_str_from(v@, i as int) == Some((Seq::<char>::empty(), i + 1)));
                assert(acc@ + Seq::<char>::empty() =~= acc@);
            }
            return Some((acc, i + 1));
        } else if c == '\\' {
            if i + 1 >= v.len() {
                return None;
            }
            let d = v[i + 1];
            if d == 'u' {
                let h1 = match hex4_at(v, i + 2) {
                    Some(x) => x,
                    None => {
                        return None;
                    },
                };
                if 0xD800 <= h1 && h1 < 0xDC00 {
                    if !(v.len() >= 12 && i <= v.len() - 12 && v[i + 6] == '\\' && v[i + 7] == 'u')
                        {
                        return None;
                    }
                    let h2 = match hex4_at(v, i + 8) {
                        Some(x) => x,
                        None => {
                            return None;
                        },
                    };
                    if !(0xDC00 <= h2 && h2 < 0xE000) {
                        return None;
                    }
                    let cp: u32 = 0x10000 + (h1 - 0xD800) * 0x400 + (h2 - 0xDC00);
                    let uc = match char_from_u32(cp) {
                        Some(uc) => uc,
                        None => {
                            proof {
                                assert(false);
                            }
                            return None;
                        },
                    };
                    proof {
                        vstd::utf8::char_u32_cast(uc, cp);
                        assert(parse_str_from(v@, i as int) == str_glue(
                            seq![uc],
                            parse_str_from(v@, i + 12),
                        ));
                        lemma_str_glue_assoc(acc@, seq![uc], parse_str_from(v@, i + 12));
                        assert(acc@ + seq![uc] =~= acc@.push(uc));
                    }
                    acc.push(uc);
                    i = i + 12;
                } else if 0xDC00 <= h1 && h1 < 0xE000 {
                    return None;
                } else {
                    let uc = match char_from_u32(h1) {
                        Some(uc) => uc,
                        None => {
                            proof {
                                assert(false);
                            }
                            return None;
                        },
                    };
                    proof {
                        vstd::utf8::char_u32_cast(uc, h1);
                        assert(parse_str_from(v@, i as int) == str_glue(
                            seq![uc],
                            parse_str_from(v@, i + 6),
                        ));
                        lemma_str_glue_assoc(acc@, seq![uc], parse_str_from(v@, i + 6));
                        assert(acc@ + seq![uc] =~= acc@.push(uc));
                    }
                    acc.push(uc);
                    i = i + 6;
                }
            } else {
                let u: Option<char> = if d == '"' {
                    Some('"')
                } else if d == '\\' {
                    Some('\\')
                } else if d == '/' {
                    Some('/')
                } else if d == 'b' {
                    Some('\u{0008}')
                } else if d == 'f' {
                    Some('\u{000C}')
                } else if d == 'n' {
                    Some('\n')
                } else if d == 't' {
                    Some('\t')
                } else if d == 'r' {
                    Some('\r')
                } else {
                    None
                };
                match u {
                    None => {
                        return None;
                    },
                    Some(uc) => {
                        proof {
                            assert(parse_str_from(v@, i as int) == str_glue(
                                seq![uc],
                                parse_str_from(v@, i + 2),
                            ));
                            lemma_str_glue_assoc(acc@, seq![uc], parse_str_from(v@, i + 2));
                            assert(acc@ + seq![uc] =~= acc@.push(uc));
                        }
                        acc.push(uc);
                        i = i + 2;
                    },
                }
            }
        } else if (c as u32) < 32 {
            return None;
        } else {
            proof {
                assert(parse_str_from(v@, i as int) == str_glue(
                    seq![c],
                    parse_str_from(v@, i + 1),
                ));
                lemma_str_glue_assoc(acc@, seq![c], parse_str_from(v@, i + 1));
                assert(acc@ + seq![c] =~= acc@.push(c));
            }
            acc.push(c);
            i = i + 1;
        }
    }
}

/// Scans one raw value, mirroring `raw_end_from` from a fresh state.
fn raw_scan(v: &Vec<char>, k: usize) -> (r: Option<usize>)
    requires
        k <= v@.len(),
    ensures
        match r {
            Some(end) => raw_end_from(v@, k as int, 0, false, false) == Some(end as int) && k <= end
                <= v@.len(),
            None => raw_end_from(v@, k as int, 0, false, false) is None,
        },
{
    let mut i: usize = k;
    let mut depth: usize = 0;
    let mut in_str = false;
    let mut esc = false;
    loop
        invariant
            k <= i <= v@.len(),
            depth as int <= i as int - k,
            !in_str ==> !esc,
            raw_end_from(v@, k as int, 0, false, false) == raw_end_from(
                v@,
                i as int,
                depth as int,
                in_str,
                esc,
            ),
        decreases v@.len() - i,
    {
        if i >= v.len() {
            if depth == 0 && !in_str {
                return Some(i);
            } else {
                return None;
            }
        }
        let c = v[i];
        if in_str {
            if esc {
                esc = false;
            } else if c == '\\' {
                esc = true;
            } else if c == '"' {
                in_str = false;
            }
            i += 1;
        } else if depth == 0 && (c == ',' || c == '}' || c == ']') {
            return Some(i);
        } else if c == '{' || c == '[' {
            depth += 1;
            i += 1;
        } else if c == '}' || c == ']' {
            if depth == 0 {
                return None;
            }
            depth -= 1;
            i += 1;
        } else if c == '"' {
            in_str = true;
            i += 1;
        } else {
            i += 1;
        }
    }
}

/// Copies the characters of a range.
fn copy_range(v: &Vec<char>, a: usize, b: usize) -> (r: Vec<char>)
    requires
        a <= b <= v@.len(),
    ensures
        r@ == v@.subrange(a as int, b as int),
{
    let mut out: Vec<char> = Vec::new();
    let mut i: usize = a;
    while i < b
        invariant
            a <= i <= b <= v@.len(),
            out@ == v@.subrange(a as int, i as int),
        decreases b - i,
    {
        out.push(v[i]);
        proof {
            assert(v@.subrange(a as int, i + 1) =~= v@.subrange(a as int, i as int).push(
                v@[i as int],
            ));
        }
        i += 1;
    }
    out
}

/// Parses one variable value, mirroring `parse_value_span`.
fn value_parse(v: &Vec<char>, j: usize) -> (r: Option<(VarValue, usize)>)
    requires
        j <= v@.len(),
    ensures
        match r {
            Some(pr) => parse_value_span(v@, j as int) == Some((pr.0@, pr.1 as int)) && j < pr.1
                <= v@.len(),
            None => parse_value_span(v@, j as int) is None,
        },
{
    let k = ws_skip(v, j);
    if k >= v.len() {
        return None;
    }
    let c = v[k];
    if c == '"' {
        match str_parse(v, k + 1) {
            Some((content, end)) => {
                let s = chars_to_string(&content);
                Some((VarValue::Text(s), end))
            },
            None => None,
        }
    } else if !(c == '{' || c == '[' || c == 't' || c == 'f' || c == 'n' || c == '-' || ('0' <= c
        && c <= '9')) {
        None
    } else {
        match raw_scan(v, k) {
            Some(end) => {
                if end > k {
                    let t = copy_range(v, k, end);
                    let s = chars_to_string(&t);
                    Some((VarValue::Raw(s), end))
                } else {
                    None
                }
            },
            None => None,
        }
    }
}

/// Whether the characters spell the member name `query`.
fn is_key_query(k: &Vec<char>) -> (r: bool)
    ensures
        r == (k@ == key_query()),
{
    if k.len() != 5 {
        return false;
    }
    let r = k[0] == 'q' && k[1] == 'u' && k[2] == 'e' && k[3] == 'r' && k[4] == 'y';
    proof {
        if r {
            assert(k@ =~= key_query());
        }
    }
    r
}

/// Whether the characters spell the member name `variables`.
fn is_key_variables(k: &Vec<char>) -> (r: bool)
    ensures
        r == (k@ == key_variables()),
{
    if k.len() != 9 {
        return false;
    }
    let r = k[0] == 'v' && k[1] == 'a' && k[2] == 'r' && k[3] == 'i' && k[4] == 'a' && k[5] == 'b'
        && k[6] == 'l' && k[7] == 'e' && k[8] == 's';
    proof {
        if r {
            assert(k@ =~= key_variables());
        }
    }
    r
}

/// Whether the string is the literal `null`.
fn is_null_string(s: &String) -> (r: bool)
    ensures
        r == (s@ == null_text()),
{
    let k = string_chars(s.as_str());
    if k.len() != 4 {
        return false;
    }
    let r = k[0] == 'n' && k[1] == 'u' && k[2] == 'l' && k[3] == 'l';
    proof {
        if r {
            assert(k@ =~= null_text());
        }
    }
    r
}

/// Parses the members of a `variables` object from just after its `{`,
/// mirroring `parse_entries`.
fn entries_parse(v: &Vec<char>, j: usize) -> (r: Option<(Vec<(String, VarValue)>, usize)>)
    requires
        j <= v@.len(),
    ensures
        match r {
            Some(pr) => parse_entries(v@, j as int, true) == Some((entries_view(pr.0@), pr.1 as int))
                && j < pr.1 <= v@.len(),
            None => parse_entries(v@, j as int, true) is None,
        },
{
    let mut acc: Vec<(String, VarValue)> = Vec::new();
    let mut i: usize = j;
    let mut first = true;
    loop
        invariant
            j <= i <= v@.len(),
            ent_glue(entries_view(acc@), parse_entries(v@, i as int, first)) == parse_entries(
                v@,
                j as int,
                true,
            ),
        decreases v@.len() - i,
    {
        let ghost accv = entries_view(acc@);
        let k = ws_skip(v, i);
        if k >= v.len() {
            return None;
        }
        if first && v[k] == '}' {
            proof {
                assert(parse_entries(v@, i as int, first) == Some(
                    (Seq::<(Seq<char>, VarValueView)>::empty(), k + 1),
                ));
                assert(accv + Seq::<(Seq<char>, VarValueView)>::empty() =~= accv);
            }
            return Some((acc, k + 1));
        }
        if v[k] != '"' {
            return None;
        }
        let parsed_key = str_parse(v, k + 1);
        match parsed_key {
            None => {
                return None;
            },
            Some((key, e1)) => {
                let m = ws_skip(v, e1);
                if m >= v.len() {
                    return None;
                }
                if v[m] != ':' {
                    return None;
                }
                match value_parse(v, m + 1) {
                    None => {
                        return None;
                    },
                    Some((val, e2)) => {
                        let p = ws_skip(v, e2);
                        if p >= v.len() {
                            return None;
                        }
                        let ks = chars_to_string(&key);
                        if v[p] == '}' {
                            proof {
                                assert(parse_entries(v@, i as int, first) == Some(
                                    (seq![(key@, val@)], p + 1),
                                ));
                                assert(entries_view(acc@.push((ks, val))) =~= accv + seq![
                                    (key@, val@)
                                ]);
                            }
                            let mut acc2 = acc;
                            acc2.push((ks, val));
                            return Some((acc2, p + 1));
                        } else if v[p] == ',' {
                            proof {
                                assert(parse_entries(v@, i as int, first) == ent_glue(
                                    seq![(key@, val@)],
                                    parse_entries(v@, p + 1, false),
                                ));
                                lemma_ent_glue_assoc(
                                    accv,
                                    seq![(key@, val@)],
                                    parse_entries(v@, p + 1, false),
                                );
                                assert(entries_view(acc@.push((ks, val))) =~= accv + seq![
                                    (key@, val@)
                                ]);
                            }
                            acc.push((ks, val));
                            i = p + 1;
                            first = false;
                        } else {
                            return None;
                        }
                    },
                }
            },
        }
    }
}

/// The view of an optional query accumulator.
pub open spec fn opt_str_view(q: Option<String>) -> Option<Seq<char>> {
    match q {
        Some(s) => Some(s@),
        None => None,
    }
}

/// The view of an optional variables accumulator.
pub open spec fn opt_entries_view(w: Option<Vec<(String, VarValue)>>) -> Option<
    Seq<(Seq<char>, VarValueView)>,
> {
    match w {
        Some(es) => Some(entries_view(es@)),
        None => None,
    }
}

/// Parses the top-level object from just after its `{`, mirroring
/// `parse_top`, and builds the envelope.
fn top_parse(v: &Vec<char>, j: usize) -> (r: Option<(RequestEnvelope, usize)>)
    requires
        j <= v@.len(),
    ensures
        match r {
            Some(pr) => parse_top(v@, j as int, true, None, None) == Some((pr.0@, pr.1 as int)) && j
                < pr.1 <= v@.len(),
            None => parse_top(v@, j as int, true, None, None) is None,
        },
{
    let mut q: Option<String> = None;
    let mut w: Option<Vec<(String, VarValue)>> = None;
    let mut i: usize = j;
    let mut first = true;
    loop
        invariant
            j <= i <= v@.len(),
            parse_top(v@, j as int, true, None, None) == parse_top(
                v@,
                i as int,
                first,
                opt_str_view(q),
                opt_entries_view(w),
            ),
        decreases v@.len() - i,
    {
        let ghost qv0 = opt_str_view(q);
        let ghost wv0 = opt_entries_view(w);
        let k = ws_skip(v, i);
        if k >= v.len() {
            return None;
        }
        if first && v[k] == '}' {
            let env = RequestEnvelope { query: q, variables: w };
            proof {
                assert(env@ == EnvelopeView { query: qv0, variables: wv0 });
            }
            return Some((env, k + 1));
        }
        if v[k] != '"' {
            return None;
        }
        let parsed_key = str_parse(v, k + 1);
        match parsed_key {
            None => {
                return None;
            },
            Some((key, e1)) => {
                let m = ws_skip(v, e1);
                if m >= v.len() {
                    return None;
                }
                if v[m] != ':' {
                    return None;
                }
                let mut e2: usize = 0;
                if is_key_query(&key) {
                    match value_parse(v, m + 1) {
                        None => {
                            return None;
                        },
                        Some((val, e2v)) => {
                            match val {
                                VarValue::Text(s) => {
                                    q = Some(s);
                                },
                                VarValue::Raw(t) => {
                                    if is_null_string(&t) {
                                        q = None;
                                    } else {
                                        return None;
                                    }
                                },
                            }
                            e2 = e2v;
                        },
                    }
                    proof {
                        assert(parse_query_value(v@, m + 1) == Some((opt_str_view(q), e2 as int)));
                    }
                } else if is_key_variables(&key) {
                    let k2 = ws_skip(v, m + 1);
                    if k2 >= v.len() {
                        return None;
                    }
                    if v[k2] == '{' {
                        match entries_parse(v, k2 + 1) {
                            None => {
                                return None;
                            },
                            Some((ents, e2v)) => {
                                w = Some(ents);
                                e2 = e2v;
                            },
                        }
                    } else {
                        match value_parse(v, m + 1) {
                            None => {
                                return None;
                            },
                            Some((val, e2v)) => {
                                match val {
                                    VarValue::Raw(t) => {
                                        if is_null_string(&t) {
                                            w = None;
                                            e2 = e2v;
                                        } else {
                                            return None;
                                        }
                                    },
                                    VarValue::Text(_) => {
                                        return None;
                                    },
                                }
                            },
                        }
                    }
                    proof {
                        assert(parse_variables_value(v@, m + 1) == Some(
                            (opt_entries_view(w), e2 as int),
                        ));
                    }
                } else {
                    match value_parse(v, m + 1) {
                        None => {
                            return None;
                        },
                        Some((_, e2v)) => {
                            e2 = e2v;
                        },
                    }
                }
                let p = ws_skip(v, e2);
                if p >= v.len() {
                    return None;
                }
                if v[p] == '}' {
                    let env = RequestEnvelope { query: q, variables: w };
                    proof {
                        assert(parse_top(v@, i as int, first, qv0, wv0) == Some((env@, p + 1)));
                    }
                    return Some((env, p + 1));
                } else if v[p] == ',' {
                    proof {
                        assert(parse_top(v@, i as int, first, qv0, wv0) == parse_top(
                            v@,
                            p + 1,
                            false,
                            opt_str_view(q),
                            opt_entries_view(w),
                        ));
                    }
                    i = p + 1;
                    first = false;
                } else {
                    return None;
                }
            },
        }
    }
}

/// Decodes a byte buffer as an envelope. Fails with `InvalidEncoding`
/// when the bytes are not UTF-8 text, and with `InvalidStructure` when
/// the text is not an envelope-shaped JSON object. `query` and the
/// variable names and string values are parsed in full, escapes
/// included; a non-string variable value or a skipped unknown member
/// must open like a JSON value and close its brackets and strings, and
/// is otherwise carried verbatim, not held to the full JSON grammar.
pub fn decode_envelope(b: &Vec<u8>) -> (r: Result<RequestEnvelope, DecodeError>)
    ensures
        match r {
            Ok(env) => valid_utf8(b@) && spec_decode(decode_utf8(b@)) == Some(env@),
            Err(DecodeError::InvalidEncoding) => !valid_utf8(b@),
            Err(DecodeError::InvalidStructure) => valid_utf8(b@) && spec_decode(decode_utf8(b@))
                is None,
        },
{
    let s = match utf8_to_string(b) {
        Some(s) => s,
        None => {
            return Err(DecodeError::InvalidEncoding);
        },
    };
    let v = string_chars(s.as_str());
    let k = ws_skip(&v, 0);
    if k >= v.len() {
        return Err(DecodeError::InvalidStructure);
    }
    if v[k] != '{' {
        return Err(DecodeError::InvalidStructure);
    }
    match top_parse(&v, k + 1) {
        None => Err(DecodeError::InvalidStructure),
        Some((env, end)) => {
            let fin = ws_skip(&v, end);
            if fin == v.len() {
                Ok(env)
            } else {
                Err(DecodeError::InvalidStructure)
            }
        },
    }
}

/// Where the whitespace skip stops: within bounds, on a non-whitespace
/// character unless at the end of input.
proof fn lemma_skip_ws(s: Seq<char>, j: int)
    requires
        0 <= j <= s.len(),
    ensures
        j <= skip_ws(s, j) <= s.len(),
        skip_ws(s, j) < s.len() ==> !is_ws(s[skip_ws(s, j)]),
    decreases s.len() - j,
{
    if j < s.len() && is_ws(s[j]) {
        lemma_skip_ws(s, j + 1);
    }
}

/// A scan that succeeds never stops short of its start.
proof fn lemma_raw_end_bounds(s: Seq<char>, j: int, depth: int, in_str: bool, esc: bool)
    requires
        raw_end_from(s, j, depth, in_str, esc) is Some,
    ensures
        j <= raw_end_from(s, j, depth, in_str, esc)->Some_0 <= s.len(),
    decreases s.len() - j,
{
    if j < s.len() {
        let c = s[j];
        if in_str {
            if esc {
                lemma_raw_end_bounds(s, j + 1, depth, true, false);
            } else if c == '\\' {
                lemma_raw_end_bounds(s, j + 1, depth, true, true);
            } else if c == '"' {
                lemma_raw_end_bounds(s, j + 1, depth, false, false);
            } else {
                lemma_raw_end_bounds(s, j + 1, depth, true, false);
            }
        } else if depth == 0 && (c == ',' || c == '}' || c == ']') {
        } else if c == '{' || c == '[' {
            lemma_raw_end_bounds(s, j + 1, depth + 1, false, false);
        } else if c == '}' || c == ']' {
            lemma_raw_end_bounds(s, j + 1, depth - 1, false, false);
        } else if c == '"' {
            lemma_raw_end_bounds(s, j + 1, depth, true, false);
        } else {
            lemma_raw_end_bounds(s, j + 1, depth, false, false);
        }
    }
}

/// The scanner behaves the same over the excerpt it accepted: cutting
/// the span out of its context, the scan consumes exactly all of it.
proof fn lemma_raw_excerpt(
    s: Seq<char>,
    k: int,
    j: int,
    end: int,
    depth: int,
    in_str: bool,
    esc: bool,
)
    requires
        0 <= k <= j <= end <= s.len(),
        raw_end_from(s, j, depth, in_str, esc) == Some(end),
    ensures
        raw_end_from(s.subrange(k, end), j - k, depth, in_str, esc) == Some(end - k),
    decreases end - j,
{
    let t = s.subrange(k, end);
    if j == end {
        // the scanner stopped here: at the end of input or on a
        // delimiter, in a closed state either way; had it stepped on,
        // it could only have stopped past `end`
        if j < s.len() {
            let c = s[j];
            if in_str {
                if esc {
                    lemma_raw_end_bounds(s, j + 1, depth, true, false);
                } else if c == '\\' {
                    lemma_raw_end_bounds(s, j + 1, depth, true, true);
                } else if c == '"' {
                    lemma_raw_end_bounds(s, j + 1, depth, false, false);
                } else {
                    lemma_raw_end_bounds(s, j + 1, depth, true, false);
                }
            } else if depth == 0 && (c == ',' || c == '}' || c == ']') {
            } else if c == '{' || c == '[' {
                lemma_raw_end_bounds(s, j + 1, depth + 1, false, false);
            } else if c == '}' || c == ']' {
                if depth > 0 {
                    lemma_raw_end_bounds(s, j + 1, depth - 1, false, false);
                }
            } else if c == '"' {
                lemma_raw_end_bounds(s, j + 1, depth, true, false);
            } else {
                lemma_raw_end_bounds(s, j + 1, depth, false, false);
            }
        }
        assert(depth == 0 && !in_str);
    } else {
        assert(t[j - k] == s[j]);
        let c = s[j];
        if in_str {
            if esc {
                lemma_raw_excerpt(s, k, j + 1, end, depth, true, false);
            } else if c == '\\' {
                lemma_raw_excerpt(s, k, j + 1, end, depth, true, true);
            } else if c == '"' {
                lemma_raw_excerpt(s, k, j + 1, end, depth, false, false);
            } else {
                lemma_raw_excerpt(s, k, j + 1, end, depth, true, false);
            }
        } else if depth == 0 && (c == ',' || c == '}' || c == ']') {
            // the scanner would have stopped here, short of `end`
            assert(false);
        } else if c == '{' || c == '[' {
            lemma_raw_excerpt(s, k, j + 1, end, depth + 1, false, false);
        } else if c == '}' || c == ']' {
            assert(depth > 0);
            lemma_raw_excerpt(s, k, j + 1, end, depth - 1, false, false);
        } else if c == '"' {
            lemma_raw_excerpt(s, k, j + 1, end, depth, true, false);
        } else {
            lemma_raw_excerpt(s, k, j + 1, end, depth, false, false);
        }
    }
}

/// A variable value the parser accepts is well formed: text is
/// printable, a raw span rescans to itself.
proof fn lemma_parse_value_wf(s: Seq<char>, j: int)
    requires
        0 <= j <= s.len(),
        parse_value_span(s, j) is Some,
    ensures
        wf_var_value(parse_value_span(s, j)->Some_0.0),
{
    let k = skip_ws(s, j);
    lemma_skip_ws(s, j);
    if s[k] == '"' {
    } else {
        let end = raw_end_from(s, k, 0, false, false)->Some_0;
        lemma_raw_end_bounds(s, k, 0, false, false);
        let t = s.subrange(k, end);
        assert(t[0] == s[k]);
        lemma_raw_excerpt(s, k, k, end, 0, false, false);
    }
}

/// Entries the member parser accepts are well formed.
proof fn lemma_parse_entries_wf(s: Seq<char>, j: int, first: bool)
    requires
        0 <= j,
        parse_entries(s, j, first) is Some,
    ensures
        forall|x: int|
            0 <= x < parse_entries(s, j, first)->Some_0.0.len() ==> wf_var_value(
                (#[trigger] parse_entries(s, j, first)->Some_0.0[x]).1,
            ),
    decreases s.len() - j,
{
    let entries = parse_entries(s, j, first)->Some_0.0;
    let k = skip_ws(s, j);
    if first && s[k] == '}' {
    } else {
        let pr = parse_str_from(s, k + 1)->Some_0;
        let key = pr.0;
        let e1 = pr.1;
        let m = skip_ws(s, e1);
        let vr = parse_value_span(s, m + 1)->Some_0;
        let val = vr.0;
        let e2 = vr.1;
        lemma_parse_value_wf(s, m + 1);
        let p = skip_ws(s, e2);
        if s[p] == '}' {
            assert(entries == seq![(key, val)]);
            assert(entries[0] == (key, val));
        } else {
            lemma_parse_entries_wf(s, p + 1, false);
            let rest = parse_entries(s, p + 1, false)->Some_0.0;
            assert(entries == seq![(key, val)] + rest);
            assert forall|x: int| 0 <= x < entries.len() implies wf_var_value(
                (#[trigger] entries[x]).1,
            ) by {
                if x == 0 {
                    assert(entries[0] == (key, val));
                } else {
                    assert(entries[x] == rest[x - 1]);
                }
            }
        }
    }
}

/// The envelope the top-level parser accepts is well formed, given
/// well-formed accumulators.
proof fn lemma_parse_top_wf(
    s: Seq<char>,
    j: int,
    first: bool,
    q: Option<Seq<char>>,
    v: Option<Seq<(Seq<char>, VarValueView)>>,
)
    requires
        0 <= j,
        parse_top(s, j, first, q, v) is Some,
        v matches Some(es) ==> forall|x: int| 0 <= x < es.len() ==> wf_var_value(
            (#[trigger] es[x]).1,
        ),
    ensures
        wf_envelope(parse_top(s, j, first, q, v)->Some_0.0),
    decreases s.len() - j,
{
    let k = skip_ws(s, j);
    if first && s[k] == '}' {
    } else {
        let pr = parse_str_from(s, k + 1)->Some_0;
        let key = pr.0;
        let e1 = pr.1;
        let m = skip_ws(s, e1);
        if key == key_query() {
            let qr = parse_query_value(s, m + 1)->Some_0;
            let p = skip_ws(s, qr.1);
            if s[p] == ',' {
                lemma_parse_top_wf(s, p + 1, false, qr.0, v);
            }
        } else if key == key_variables() {
            let wr = parse_variables_value(s, m + 1)->Some_0;
            if wr.0 is Some {
                let k2 = skip_ws(s, m + 1);
                lemma_skip_ws(s, m + 1);
                lemma_parse_entries_wf(s, k2 + 1, true);
            }
            let p = skip_ws(s, wr.1);
            if s[p] == ',' {
                lemma_parse_top_wf(s, p + 1, false, q, wr.0);
            }
        } else {
            let vr = parse_value_span(s, m + 1)->Some_0;
            let p = skip_ws(s, vr.1);
            if s[p] == ',' {
                lemma_parse_top_wf(s, p + 1, false, q, v);
            }
        }
    }
}

/// Everything the decoder accepts is a valid envelope: decoded strings
/// are printable text and decoded raw spans rescan to themselves.
pub proof fn lemma_decode_valid(s: Seq<char>)
    requires
        spec_decode(s) is Some,
    ensures
        wf_envelope(spec_decode(s)->Some_0),
{
    let k = skip_ws(s, 0);
    lemma_parse_top_wf(s, k + 1, true, None, None);
}

/// A decoded envelope re-encodes faithfully: encoding what the decoder
/// produced and decoding again yields the same envelope.
pub proof fn lemma_decoded_round_trip(s: Seq<char>)
    requires
        spec_decode(s) is Some,
    ensures
        spec_decode(spec_encode(spec_decode(s)->Some_0)) == spec_decode(s),
{
    lemma_decode_valid(s);
    lemma_decode_encode(spec_decode(s)->Some_0);
}

} // verus!
