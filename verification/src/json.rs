use vstd::prelude::*;
use crate::task::{views_of, Task, TaskError, TaskView};
use crate::store::TaskList;

verus! {

// ===== the persisted text format, as mathematics =====
//
// A collection is persisted as a JSON array of objects, each with a
// `description` string and a `completed` boolean, in storage order:
//
//     [{"description":"buy milk","completed":false}, ...]
//
// `encode_list` is the canonical (whitespace-free) encoding the store
// writes; the parser below also tolerates insignificant whitespace between
// tokens and the usual escape spellings, so pretty-printed files read back
// the same way.

/// JSON insignificant whitespace.
pub open spec fn is_ws(c: char) -> bool {
    c == ' ' || c == '\n' || c == '\r' || c == '\t'
}

/// The lower-case hex digit for a value below 16.
pub open spec fn hex_digit(v: int) -> char {
    if v == 0 {
        '0'
    } else if v == 1 {
        '1'
    } else if v == 2 {
        '2'
    } else if v == 3 {
        '3'
    } else if v == 4 {
        '4'
    } else if v == 5 {
        '5'
    } else if v == 6 {
        '6'
    } else if v == 7 {
        '7'
    } else if v == 8 {
        '8'
    } else if v == 9 {
        '9'
    } else if v == 10 {
        'a'
    } else if v == 11 {
        'b'
    } else if v == 12 {
        'c'
    } else if v == 13 {
        'd'
    } else if v == 14 {
        'e'
    } else {
        'f'
    }
}

/// The value of a hex digit character, or -1 for any other character.
pub open spec fn hex_val(c: char) -> int {
    let v = c as u32;
    if 48 <= v && v <= 57 {
        v - 48
    } else if 97 <= v && v <= 102 {
        v - 87
    } else if 65 <= v && v <= 70 {
        v - 55
    } else {
        -1
    }
}

/// How one character of a description is written inside a JSON string:
/// quote and backslash are escaped, control characters become `\u00XX`,
/// everything else stands for itself.
pub open spec fn encode_char(c: char) -> Seq<char> {
    if c == '"' {
        seq!['\\', '"']
    } else if c == '\\' {
        seq!['\\', '\\']
    } else if (c as u32) < 16 {
        seq!['\\', 'u', '0', '0', '0', hex_digit(c as u32 as int)]
    } else if (c as u32) < 32 {
        seq!['\\', 'u', '0', '0', '1', hex_digit((c as u32) - 16)]
    } else {
        seq![c]
    }
}

/// The body of a JSON string: each character encoded in turn.
pub open spec fn encode_string(s: Seq<char>) -> Seq<char>
    decreases s.len(),
{
    if s.len() == 0 {
        Seq::<char>::empty()
    } else {
        encode_char(s[0]) + encode_string(s.drop_first())
    }
}

/// A JSON boolean.
pub open spec fn encode_bool(b: bool) -> Seq<char> {
    if b {
        seq!['t', 'r', 'u', 'e']
    } else {
        seq!['f', 'a', 'l', 's', 'e']
    }
}

/// The `description` key, quotes included.
pub open spec fn desc_key() -> Seq<char> {
    seq!['"', 'd', 'e', 's', 'c', 'r', 'i', 'p', 't', 'i', 'o', 'n', '"']
}

/// The `completed` key, quotes included.
pub open spec fn comp_key() -> Seq<char> {
    seq!['"', 'c', 'o', 'm', 'p', 'l', 'e', 't', 'e', 'd', '"']
}

/// What a task object opens with: brace, `description` key, colon, quote.
pub open spec fn desc_prefix() -> Seq<char> {
    seq!['{'] + desc_key() + seq![':', '"']
}

/// What stands between the description's closing quote and the completion
/// value: quote, comma, `completed` key, colon.
pub open spec fn comp_mid() -> Seq<char> {
    seq![','] + comp_key() + seq![':']
}

/// One task as a JSON object.
pub open spec fn encode_task(t: TaskView) -> Seq<char> {
    desc_prefix() + encode_string(t.description) + seq!['"'] + comp_mid() + encode_bool(t.completed)
        + seq!['}']
}

/// Every task after the first, each preceded by a comma.
pub open spec fn encode_rest(ts: Seq<TaskView>) -> Seq<char>
    decreases ts.len(),
{
    if ts.len() == 0 {
        Seq::<char>::empty()
    } else {
        seq![','] + encode_task(ts[0]) + encode_rest(ts.drop_first())
    }
}

/// The canonical encoding of a whole collection: a JSON array of the task
/// objects in storage order.
pub open spec fn encode_list(ts: Seq<TaskView>) -> Seq<char> {
    if ts.len() == 0 {
        seq!['[', ']']
    } else {
        seq!['['] + encode_task(ts[0]) + encode_rest(ts.drop_first()) + seq![']']
    }
}

// ===== executable encoding =====

/// Relies on `String::push`: appends the given character to the end of
/// the string.
#[verifier::external_body]
fn push_char(s: &mut String, c: char)
    ensures
        final(s)@ == old(s)@.push(c),
{
    s.push(c);
}

/// Copies a character vector into a `String` with the same characters.
fn chars_to_string(v: &Vec<char>) -> (r: String)
    ensures
        r@ == v@,
{
    let mut r = String::new();
    let mut i: usize = 0;
    while i < v.len()
        invariant
            i <= v@.len(),
            r@ == v@.take(i as int),
        decreases v@.len() - i,
    {
        push_char(&mut r, v[i]);
        proof {
            assert(v@.take(i + 1) =~= v@.take(i as int).push(v@[i as int]));
        }
        i = i + 1;
    }
    proof {
        assert(v@.take(v@.len() as int) =~= v@);
    }
    r
}

/// Copies a string's characters into a vector.
fn string_to_chars(s: &str) -> (r: Vec<char>)
    ensures
        r@ == s@,
{
    let n = s.unicode_len();
    let mut r: Vec<char> = Vec::new();
    let mut i: usize = 0;
    while i < n
        invariant
            i <= n,
            n == s@.len(),
            r@ == s@.take(i as int),
        decreases n - i,
    {
        let c = s.get_char(i);
        r.push(c);
        proof {
            assert(s@.take(i + 1) =~= s@.take(i as int).push(s@[i as int]));
        }
        i = i + 1;
    }
    proof {
        assert(s@.take(n as int) =~= s@);
    }
    r
}

/// The lower-case hex digit for a value below 16.
fn hex_digit_x(v: u32) -> (r: char)
    requires
        v < 16,
    ensures
        r == hex_digit(v as int),
{
    if v == 0 {
        '0'
    } else if v == 1 {
        '1'
    } else if v == 2 {
        '2'
    } else if v == 3 {
        '3'
    } else if v == 4 {
        '4'
    } else if v == 5 {
        '5'
    } else if v == 6 {
        '6'
    } else if v == 7 {
        '7'
    } else if v == 8 {
        '8'
    } else if v == 9 {
        '9'
    } else if v == 10 {
        'a'
    } else if v == 11 {
        'b'
    } else if v == 12 {
        'c'
    } else if v == 13 {
        'd'
    } else if v == 14 {
        'e'
    } else {
        'f'
    }
}

/// Appends the escaped form of one description character.
fn encode_char_into(out: &mut Vec<char>, c: char)
    ensures
        final(out)@ == old(out)@ + encode_char(c),
{
    if c == '"' {
        out.push('\\');
        out.push('"');
        proof {
            assert(out@ =~= old(out)@ + encode_char(c));
        }
    } else if c == '\\' {
        out.push('\\');
        out.push('\\');
        proof {
            assert(out@ =~= old(out)@ + encode_char(c));
        }
    } else {
        let v = c as u32;
        if v < 16 {
            out.push('\\');
            out.push('u');
            out.push('0');
            out.push('0');
            out.push('0');
            out.push(hex_digit_x(v));
            proof {
                assert(out@ =~= old(out)@ + encode_char(c));
            }
        } else if v < 32 {
            out.push('\\');
            out.push('u');
            out.push('0');
            out.push('0');
            out.push('1');
            out.push(hex_digit_x(v - 16));
            proof {
                assert(out@ =~= old(out)@ + encode_char(c));
            }
        } else {
            out.push(c);
            proof {
                assert(out@ =~= old(out)@ + encode_char(c));
            }
        }
    }
}

/// Appends the encoded body of a JSON string.
fn encode_string_into(out: &mut Vec<char>, s: &str)
    ensures
        final(out)@ == old(out)@ + encode_string(s@),
{
    let n = s.unicode_len();
    proof {
        assert(s@.skip(0) =~= s@);
    }
    let mut i: usize = 0;
    while i < n
        invariant
            i <= n,
            n == s@.len(),
            out@ + encode_string(s@.skip(i as int)) == old(out)@ + encode_string(s@),
        decreases n - i,
    {
        let c = s.get_char(i);
        let ghost prev = out@;
        encode_char_into(out, c);
        proof {
            let tail = s@.skip(i as int);
            assert(tail[0] == c);
            assert(tail.drop_first() =~= s@.skip(i + 1));
            assert(encode_string(tail) == encode_char(c) + encode_string(s@.skip(i + 1)));
            assert(out@ + encode_string(s@.skip(i + 1)) =~= prev + encode_string(tail));
        }
        i = i + 1;
    }
    proof {
        assert(s@.skip(n as int) =~= Seq::<char>::empty());
        assert(out@ + encode_string(s@.skip(n as int)) =~= out@);
    }
}

/// Appends the opening of a task object, up to the description's opening
/// quote.
fn push_desc_prefix(out: &mut Vec<char>)
    ensures
        final(out)@ == old(out)@ + desc_prefix(),
{
    out.push('{');
    out.push('"');
    out.push('d');
    out.push('e');
    out.push('s');
    out.push('c');
    out.push('r');
    out.push('i');
    out.push('p');
    out.push('t');
    out.push('i');
    out.push('o');
    out.push('n');
    out.push('"');
    out.push(':');
    out.push('"');
    proof {
        assert(out@ =~= old(out)@ + desc_prefix());
    }
}

/// Appends the comma and `completed` key between the two fields.
fn push_comp_mid(out: &mut Vec<char>)
    ensures
        final(out)@ == old(out)@ + comp_mid(),
{
    out.push(',');
    out.push('"');
    out.push('c');
    out.push('o');
    out.push('m');
    out.push('p');
    out.push('l');
    out.push('e');
    out.push('t');
    out.push('e');
    out.push('d');
    out.push('"');
    out.push(':');
    proof {
        assert(out@ =~= old(out)@ + comp_mid());
    }
}

/// Appends a JSON boolean.
fn push_bool(out: &mut Vec<char>, b: bool)
    ensures
        final(out)@ == old(out)@ + encode_bool(b),
{
    if b {
        out.push('t');
        out.push('r');
        out.push('u');
        out.push('e');
    } else {
        out.push('f');
        out.push('a');
        out.push('l');
        out.push('s');
        out.push('e');
    }
    proof {
        assert(out@ =~= old(out)@ + encode_bool(b));
    }
}

/// Appends one task as a JSON object.
fn encode_task_into(out: &mut Vec<char>, t: &Task)
    ensures
        final(out)@ == old(out)@ + encode_task(t@),
{
    push_desc_prefix(out);
    encode_string_into(out, t.description.as_str());
    out.push('"');
    push_comp_mid(out);
    push_bool(out, t.completed);
    out.push('}');
    proof {
        assert(out@ =~= old(out)@ + encode_task(t@));
    }
}

impl TaskList {
    /// The canonical persisted text for this collection.
    pub fn to_json(&self) -> (r: String)
        ensures
            r@ == encode_list(self@),
    {
        let mut out: Vec<char> = Vec::new();
        out.push('[');
        let n = self.tasks.len();
        if n == 0 {
            out.push(']');
            proof {
                assert(out@ =~= encode_list(self@));
            }
            return chars_to_string(&out);
        }
        encode_task_into(&mut out, &self.tasks[0]);
        proof {
            assert(out@ =~= seq!['['] + encode_task(self@[0]));
            assert(self@.skip(1) =~= self@.drop_first());
            assert(out@ + encode_rest(self@.skip(1)) + seq![']'] =~= encode_list(self@));
        }
        let mut i: usize = 1;
        while i < n
            invariant
                1 <= i <= n,
                n == self@.len(),
                n == self.tasks@.len(),
                out@ + encode_rest(self@.skip(i as int)) + seq![']'] == encode_list(self@),
            decreases n - i,
        {
            let ghost prev = out@;
            out.push(',');
            encode_task_into(&mut out, &self.tasks[i]);
            proof {
                let tail = self@.skip(i as int);
                assert(tail[0] == self@[i as int]);
                assert(tail.drop_first() =~= self@.skip(i + 1));
                assert(encode_rest(tail) == seq![','] + encode_task(tail[0]) + encode_rest(
                    self@.skip(i + 1),
                ));
                assert(out@ =~= prev + seq![','] + encode_task(self@[i as int]));
                assert(out@ + encode_rest(self@.skip(i + 1)) =~= prev + encode_rest(tail));
            }
            i = i + 1;
        }
        out.push(']');
        proof {
            assert(self@.skip(n as int) =~= Seq::<TaskView>::empty());
            assert(encode_rest(self@.skip(n as int)) == Seq::<char>::empty());
            assert(out@ =~= encode_list(self@));
        }
        chars_to_string(&out)
    }
}

// ===== the parser, as mathematics =====
//
// Each spec parser takes the text and a position and yields the parsed
// value with the position just past it, or `None` where the text does not
// match the grammar from that position.

/// The first position at or after `i` holding no whitespace.
pub open spec fn skip_ws(s: Seq<char>, i: int) -> int
    decreases s.len() - i,
{
    if 0 <= i && i < s.len() && is_ws(s[i]) {
        skip_ws(s, i + 1)
    } else {
        i
    }
}

/// What a single-character escape stands for.
pub open spec fn unescape(c: char) -> Option<char> {
    if c == '"' {
        Some('"')
    } else if c == '\\' {
        Some('\\')
    } else if c == '/' {
        Some('/')
    } else if c == 'n' {
        Some('\n')
    } else if c == 't' {
        Some('\t')
    } else if c == 'r' {
        Some('\r')
    } else if c == 'b' {
        Some(8u8 as char)
    } else if c == 'f' {
        Some(12u8 as char)
    } else {
        None
    }
}

/// The body of a JSON string, read from just after the opening quote up to
/// and past the closing quote. Escapes cover the single-character ones and
/// `\u00XX`; characters other than quote and backslash stand for
/// themselves.
pub open spec fn parse_string_body(s: Seq<char>, i: int) -> Option<(Seq<char>, int)>
    decreases s.len() - i,
{
    if !(0 <= i && i < s.len()) {
        None
    } else if s[i] == '"' {
        Some((Seq::<char>::empty(), i + 1))
    } else if s[i] == '\\' {
        if i + 1 < s.len() {
            let e = s[i + 1];
            if e == 'u' {
                if i + 6 <= s.len() && s[i + 2] == '0' && s[i + 3] == '0' && hex_val(s[i + 4]) >= 0
                    && hex_val(s[i + 5]) >= 0 {
                    let v = 16 * hex_val(s[i + 4]) + hex_val(s[i + 5]);
                    match parse_string_body(s, i + 6) {
                        None => None,
                        Some((d, j)) => Some((seq![(v as u8) as char] + d, j)),
                    }
                } else {
                    None
                }
            } else {
                match unescape(e) {
                    None => None,
                    Some(c) => match parse_string_body(s, i + 2) {
                        None => None,
                        Some((d, j)) => Some((seq![c] + d, j)),
                    },
                }
            }
        } else {
            None
        }
    } else if (s[i] as u32) < 32 {
        None
    } else {
        match parse_string_body(s, i + 1) {
            None => None,
            Some((d, j)) => Some((seq![s[i]] + d, j)),
        }
    }
}

/// A JSON boolean literal.
pub open spec fn parse_bool(s: Seq<char>, i: int) -> Option<(bool, int)> {
    if 0 <= i && i + 4 <= s.len() && s[i] == 't' && s[i + 1] == 'r' && s[i + 2] == 'u' && s[i + 3]
        == 'e' {
        Some((true, i + 4))
    } else if 0 <= i && i + 5 <= s.len() && s[i] == 'f' && s[i + 1] == 'a' && s[i + 2] == 'l' && s[i
        + 3] == 's' && s[i + 4] == 'e' {
        Some((false, i + 5))
    } else {
        None
    }
}

/// Whether `lit` stands letter for letter at position `i` of `s`.
pub open spec fn match_lit(s: Seq<char>, i: int, lit: Seq<char>) -> bool {
    0 <= i && i + lit.len() <= s.len() && s.subrange(i, i + lit.len()) == lit
}

/// One task object: a brace, the `description` field, a comma, the
/// `completed` field, a closing brace, with whitespace allowed between
/// tokens.
pub open spec fn parse_task(s: Seq<char>, i: int) -> Option<(TaskView, int)> {
    let i0 = skip_ws(s, i);
    if !(0 <= i0 && i0 < s.len() && s[i0] == '{') {
        None
    } else {
        let i1 = skip_ws(s, i0 + 1);
        if !match_lit(s, i1, desc_key()) {
            None
        } else {
            let i2 = skip_ws(s, i1 + 13);
            if !(i2 < s.len() && s[i2] == ':') {
                None
            } else {
                let i3 = skip_ws(s, i2 + 1);
                if !(i3 < s.len() && s[i3] == '"') {
                    None
                } else {
                    match parse_string_body(s, i3 + 1) {
                        None => None,
                        Some((d, i4)) => {
                            let i5 = skip_ws(s, i4);
                            if !(i5 < s.len() && s[i5] == ',') {
                                None
                            } else {
                                let i6 = skip_ws(s, i5 + 1);
                                if !match_lit(s, i6, comp_key()) {
                                    None
                                } else {
                                    let i7 = skip_ws(s, i6 + 11);
                                    if !(i7 < s.len() && s[i7] == ':') {
                                        None
                                    } else {
                                        let i8 = skip_ws(s, i7 + 1);
                                        match parse_bool(s, i8) {
                                            None => None,
                                            Some((b, i9)) => {
                                                let i10 = skip_ws(s, i9);
                                                if i10 < s.len() && s[i10] == '}' {
                                                    Some(
                                                        (
                                                            TaskView {
                                                                description: d,
                                                                completed: b,
                                                            },
                                                            i10 + 1,
                                                        ),
                                                    )
                                                } else {
                                                    None
                                                }
                                            },
                                        }
                                    }
                                }
                            }
                        },
                    }
                }
            }
        }
    }
}

/// `skip_ws` stays at or after its start and within the text.
pub proof fn lemma_skip_ws_bounds(s: Seq<char>, i: int)
    requires
        0 <= i <= s.len(),
    ensures
        i <= skip_ws(s, i) <= s.len(),
    decreases s.len() - i,
{
    if i < s.len() && is_ws(s[i]) {
        lemma_skip_ws_bounds(s, i + 1);
    }
}

/// A parsed string body ends after its start and within the text.
pub proof fn lemma_parse_string_body_advances(s: Seq<char>, i: int)
    ensures
        parse_string_body(s, i) matches Some(r) ==> i + 1 <= r.1 <= s.len(),
    decreases s.len() - i,
{
    if 0 <= i && i < s.len() {
        if s[i] == '"' {
        } else if s[i] == '\\' {
            if i + 1 < s.len() {
                if s[i + 1] == 'u' {
                    if i + 6 <= s.len() {
                        lemma_parse_string_body_advances(s, i + 6);
                    }
                } else {
                    lemma_parse_string_body_advances(s, i + 2);
                }
            }
        } else {
            lemma_parse_string_body_advances(s, i + 1);
        }
    }
}

/// A parsed task ends after its start and within the text.
pub proof fn lemma_parse_task_advances(s: Seq<char>, i: int)
    requires
        0 <= i <= s.len(),
    ensures
        parse_task(s, i) matches Some(r) ==> i < r.1 <= s.len(),
{
    lemma_skip_ws_bounds(s, i);
    let i0 = skip_ws(s, i);
    if 0 <= i0 && i0 < s.len() && s[i0] == '{' {
        lemma_skip_ws_bounds(s, i0 + 1);
        let i1 = skip_ws(s, i0 + 1);
        if match_lit(s, i1, desc_key()) {
            lemma_skip_ws_bounds(s, i1 + 13);
            let i2 = skip_ws(s, i1 + 13);
            if i2 < s.len() && s[i2] == ':' {
                lemma_skip_ws_bounds(s, i2 + 1);
                let i3 = skip_ws(s, i2 + 1);
                if i3 < s.len() && s[i3] == '"' {
                    lemma_parse_string_body_advances(s, i3 + 1);
                    match parse_string_body(s, i3 + 1) {
                        None => {},
                        Some(ds) => {
                        let i4 = ds.1;
                        lemma_skip_ws_bounds(s, i4);
                        let i5 = skip_ws(s, i4);
                        if i5 < s.len() && s[i5] == ',' {
                            lemma_skip_ws_bounds(s, i5 + 1);
                            let i6 = skip_ws(s, i5 + 1);
                            if match_lit(s, i6, comp_key()) {
                                lemma_skip_ws_bounds(s, i6 + 11);
                                let i7 = skip_ws(s, i6 + 11);
                                if i7 < s.len() && s[i7] == ':' {
                                    lemma_skip_ws_bounds(s, i7 + 1);
                                    let i8 = skip_ws(s, i7 + 1);
                                    match parse_bool(s, i8) {
                                        None => {},
                                        Some(bs) => {
                                            lemma_skip_ws_bounds(s, bs.1);
                                        },
                                    }
                                }
                            }
                        }
                        },
                    }
                }
            }
        }
    }
}

/// The tasks after the first: any number of comma-preceded task objects,
/// closed by the array's right bracket.
pub open spec fn parse_rest(s: Seq<char>, i: int) -> Option<(Seq<TaskView>, int)>
    decreases s.len() - i,
        via parse_rest_decreases
{
    let j = skip_ws(s, i);
    if 0 <= j && j < s.len() && s[j] == ']' {
        Some((Seq::<TaskView>::empty(), j + 1))
    } else if 0 <= j && j < s.len() && s[j] == ',' {
        match parse_task(s, j + 1) {
            None => None,
            Some((t, k)) => match parse_rest(s, k) {
                None => None,
                Some((ts, m)) => Some((seq![t] + ts, m)),
            },
        }
    } else {
        None
    }
}

#[via_fn]
proof fn parse_rest_decreases(s: Seq<char>, i: int) {
    if 0 <= i && i <= s.len() {
        lemma_skip_ws_bounds(s, i);
        let j = skip_ws(s, i);
        if 0 <= j && j < s.len() && s[j] == ',' {
            lemma_parse_task_advances(s, j + 1);
        }
    }
}

/// A parsed task list tail ends after its start and within the text.
pub proof fn lemma_parse_rest_advances(s: Seq<char>, i: int)
    requires
        0 <= i <= s.len(),
    ensures
        parse_rest(s, i) matches Some(r) ==> i < r.1 <= s.len(),
    decreases s.len() - i,
{
    lemma_skip_ws_bounds(s, i);
    let j = skip_ws(s, i);
    if 0 <= j && j < s.len() && s[j] == ',' {
        lemma_parse_task_advances(s, j + 1);
        match parse_task(s, j + 1) {
            None => {},
            Some(tk) => {
                lemma_parse_rest_advances(s, tk.1);
            },
        }
    }
}

/// A whole persisted collection: one JSON array holding the task objects,
/// with nothing but whitespace after it.
pub open spec fn parse_collection(s: Seq<char>) -> Option<Seq<TaskView>> {
    let i0 = skip_ws(s, 0);
    if !(i0 < s.len() && s[i0] == '[') {
        None
    } else {
        let i1 = skip_ws(s, i0 + 1);
        if i1 < s.len() && s[i1] == ']' {
            if skip_ws(s, i1 + 1) == s.len() {
                Some(Seq::<TaskView>::empty())
            } else {
                None
            }
        } else {
            match parse_task(s, i1) {
                None => None,
                Some((t, j)) => match parse_rest(s, j) {
                    None => None,
                    Some((ts, m)) => if skip_ws(s, m) == s.len() {
                        Some(seq![t] + ts)
                    } else {
                        None
                    },
                },
            }
        }
    }
}

// ===== executable parsing =====

/// Whether the character is JSON whitespace.
fn is_ws_x(c: char) -> (r: bool)
    ensures
        r == is_ws(c),
{
    c == ' ' || c == '\n' || c == '\r' || c == '\t'
}

/// The value of a hex digit character, or -1 for any other character.
fn hex_val_x(c: char) -> (r: i32)
    ensures
        r as int == hex_val(c),
{
    let v = c as u32;
    if 48 <= v && v <= 57 {
        (v - 48) as i32
    } else if 97 <= v && v <= 102 {
        (v - 87) as i32
    } else if 65 <= v && v <= 70 {
        (v - 55) as i32
    } else {
        -1
    }
}

/// The first position at or after `i` holding no whitespace.
fn skip_ws_x(v: &Vec<char>, i: usize) -> (r: usize)
    requires
        i <= v@.len(),
    ensures
        r as int == skip_ws(v@, i as int),
        i <= r <= v@.len(),
{
    let mut j = i;
    while j < v.len() && is_ws_x(v[j])
        invariant
            i <= j <= v@.len(),
            skip_ws(v@, i as int) == skip_ws(v@, j as int),
        decreases v@.len() - j,
    {
        proof {
            assert(skip_ws(v@, j as int) == skip_ws(v@, j + 1));
        }
        j = j + 1;
    }
    proof {
        assert(skip_ws(v@, j as int) == j as int);
    }
    j
}

/// What a single-character escape stands for.
fn unescape_x(c: char) -> (r: Option<char>)
    ensures
        r == unescape(c),
{
    if c == '"' {
        Some('"')
    } else if c == '\\' {
        Some('\\')
    } else if c == '/' {
        Some('/')
    } else if c == 'n' {
        Some('\n')
    } else if c == 't' {
        Some('\t')
    } else if c == 'r' {
        Some('\r')
    } else if c == 'b' {
        Some(8u8 as char)
    } else if c == 'f' {
        Some(12u8 as char)
    } else {
        None
    }
}

/// Reads a JSON string body, returning its characters and the position
/// just past the closing quote.
fn parse_string_body_x(v: &Vec<char>, i: usize) -> (r: Option<(Vec<char>, usize)>)
    requires
        i <= v@.len(),
    ensures
        parse_string_body(v@, i as int) is None ==> r is None,
        parse_string_body(v@, i as int) matches Some(dj) ==> r matches Some(rr) && rr.0@ == dj.0
            && rr.1 == dj.1,
    decreases v@.len() - i,
{
    if i == v.len() {
        return None;
    }
    let c = v[i];
    if c == '"' {
        return Some((Vec::new(), i + 1));
    }
    if c == '\\' {
        if i + 1 == v.len() {
            return None;
        }
        let e = v[i + 1];
        if e == 'u' {
            if v.len() - i < 6 {
                return None;
            }
            if v[i + 2] != '0' || v[i + 3] != '0' {
                return None;
            }
            let h4 = hex_val_x(v[i + 4]);
            let h5 = hex_val_x(v[i + 5]);
            if h4 < 0 || h5 < 0 {
                return None;
            }
            let val: u32 = 16 * (h4 as u32) + (h5 as u32);
            let c2 = (val as u8) as char;
            match parse_string_body_x(v, i + 6) {
                None => None,
                Some((d, j)) => {
                    let ghost dv = d@;
                    let mut d2 = d;
                    d2.insert(0, c2);
                    proof {
                        assert(d2@ =~= seq![c2] + dv);
                    }
                    Some((d2, j))
                },
            }
        } else {
            match unescape_x(e) {
                None => None,
                Some(c2) => match parse_string_body_x(v, i + 2) {
                    None => None,
                    Some((d, j)) => {
                        let ghost dv = d@;
                        let mut d2 = d;
                        d2.insert(0, c2);
                        proof {
                            assert(d2@ =~= seq![c2] + dv);
                        }
                        Some((d2, j))
                    },
                },
            }
        }
    } else if (c as u32) < 32 {
        None
    } else {
        match parse_string_body_x(v, i + 1) {
            None => None,
            Some((d, j)) => {
                let ghost dv = d@;
                let mut d2 = d;
                d2.insert(0, c);
                proof {
                    assert(d2@ =~= seq![c] + dv);
                }
                Some((d2, j))
            },
        }
    }
}

/// Reads a JSON boolean literal.
fn parse_bool_x(v: &Vec<char>, i: usize) -> (r: Option<(bool, usize)>)
    requires
        i <= v@.len(),
    ensures
        parse_bool(v@, i as int) is None ==> r is None,
        parse_bool(v@, i as int) matches Some(bj) ==> r matches Some(rr) && rr.0 == bj.0 && rr.1
            == bj.1,
{
    if v.len() - i >= 4 && v[i] == 't' && v[i + 1] == 'r' && v[i + 2] == 'u' && v[i + 3] == 'e' {
        Some((true, i + 4))
    } else if v.len() - i >= 5 && v[i] == 'f' && v[i + 1] == 'a' && v[i + 2] == 'l' && v[i + 3]
        == 's' && v[i + 4] == 'e' {
        Some((false, i + 5))
    } else {
        None
    }
}

/// Whether the quoted `description` key stands at position `i`.
fn match_desc_key_x(v: &Vec<char>, i: usize) -> (r: bool)
    requires
        i <= v@.len(),
    ensures
        r == match_lit(v@, i as int, desc_key()),
{
    if v.len() - i < 13 {
        return false;
    }
    let r = v[i] == '"' && v[i + 1] == 'd' && v[i + 2] == 'e' && v[i + 3] == 's' && v[i + 4] == 'c'
        && v[i + 5] == 'r' && v[i + 6] == 'i' && v[i + 7] == 'p' && v[i + 8] == 't' && v[i + 9]
        == 'i' && v[i + 10] == 'o' && v[i + 11] == 'n' && v[i + 12] == '"';
    proof {
        let gi = i as int;
        let sub = v@.subrange(gi, gi + 13);
        assert(forall|k: int| 0 <= k < 13 ==> sub[k] == v@[gi + k]);
        if r {
            assert(sub =~= desc_key());
        }
        if match_lit(v@, gi, desc_key()) {
            assert(sub[0] == '"' && sub[1] == 'd' && sub[2] == 'e' && sub[3] == 's' && sub[4]
                == 'c' && sub[5] == 'r' && sub[6] == 'i' && sub[7] == 'p' && sub[8] == 't' && sub[9]
                == 'i' && sub[10] == 'o' && sub[11] == 'n' && sub[12] == '"');
        }
    }
    r
}

/// Whether the quoted `completed` key stands at position `i`.
fn match_comp_key_x(v: &Vec<char>, i: usize) -> (r: bool)
    requires
        i <= v@.len(),
    ensures
        r == match_lit(v@, i as int, comp_key()),
{
    if v.len() - i < 11 {
        return false;
    }
    let r = v[i] == '"' && v[i + 1] == 'c' && v[i + 2] == 'o' && v[i + 3] == 'm' && v[i + 4] == 'p'
        && v[i + 5] == 'l' && v[i + 6] == 'e' && v[i + 7] == 't' && v[i + 8] == 'e' && v[i + 9]
        == 'd' && v[i + 10] == '"';
    proof {
        let gi = i as int;
        let sub = v@.subrange(gi, gi + 11);
        assert(forall|k: int| 0 <= k < 11 ==> sub[k] == v@[gi + k]);
        if r {
            assert(sub =~= comp_key());
        }
        if match_lit(v@, gi, comp_key()) {
            assert(sub[0] == '"' && sub[1] == 'c' && sub[2] == 'o' && sub[3] == 'm' && sub[4]
                == 'p' && sub[5] == 'l' && sub[6] == 'e' && sub[7] == 't' && sub[8] == 'e' && sub[9]
                == 'd' && sub[10] == '"');
        }
    }
    r
}

/// Reads one task object.
#[verifier::rlimit(50)]
fn parse_task_x(v: &Vec<char>, i: usize) -> (r: Option<(Task, usize)>)
    requires
        i <= v@.len(),
    ensures
        parse_task(v@, i as int) is None ==> r is None,
        parse_task(v@, i as int) matches Some(tj) ==> r matches Some(rr) && rr.0@ == tj.0 && rr.1
            == tj.1,
{
    let i0 = skip_ws_x(v, i);
    if i0 == v.len() {
        return None;
    }
    if v[i0] != '{' {
        return None;
    }
    let i1 = skip_ws_x(v, i0 + 1);
    if !match_desc_key_x(v, i1) {
        return None;
    }
    let i2 = skip_ws_x(v, i1 + 13);
    if i2 == v.len() {
        return None;
    }
    if v[i2] != ':' {
        return None;
    }
    let i3 = skip_ws_x(v, i2 + 1);
    if i3 == v.len() {
        return None;
    }
    if v[i3] != '"' {
        return None;
    }
    match parse_string_body_x(v, i3 + 1) {
        None => None,
        Some((d, i4)) => {
            proof {
                lemma_parse_string_body_advances(v@, i3 + 1);
            }
            let i5 = skip_ws_x(v, i4);
            if i5 == v.len() {
                return None;
            }
            if v[i5] != ',' {
                return None;
            }
            let i6 = skip_ws_x(v, i5 + 1);
            if !match_comp_key_x(v, i6) {
                return None;
            }
            let i7 = skip_ws_x(v, i6 + 11);
            if i7 == v.len() {
                return None;
            }
            if v[i7] != ':' {
                return None;
            }
            let i8 = skip_ws_x(v, i7 + 1);
            match parse_bool_x(v, i8) {
                None => None,
                Some((b, i9)) => {
                    let i10 = skip_ws_x(v, i9);
                    if i10 == v.len() {
                        return None;
                    }
                    if v[i10] != '}' {
                        return None;
                    }
                    Some((Task { description: chars_to_string(&d), completed: b }, i10 + 1))
                },
            }
        },
    }
}

/// Reads the comma-preceded task objects after the first, and the closing
/// bracket.
fn parse_rest_x(v: &Vec<char>, i: usize) -> (r: Option<(Vec<Task>, usize)>)
    requires
        i <= v@.len(),
    ensures
        parse_rest(v@, i as int) is None ==> r is None,
        parse_rest(v@, i as int) matches Some(tj) ==> r matches Some(rr) && views_of(rr.0@) == tj.0
            && rr.1 == tj.1,
    decreases v@.len() - i,
{
    let j = skip_ws_x(v, i);
    if j == v.len() {
        return None;
    }
    let cj = v[j];
    if cj == ']' {
        let e: Vec<Task> = Vec::new();
        proof {
            assert(views_of(e@) =~= Seq::<TaskView>::empty());
        }
        return Some((e, j + 1));
    }
    if cj != ',' {
        return None;
    }
    match parse_task_x(v, j + 1) {
        None => None,
        Some((t, k)) => {
            proof {
                lemma_parse_task_advances(v@, j + 1);
            }
            match parse_rest_x(v, k) {
                None => None,
                Some((ts, m)) => {
                    let ghost tv = t@;
                    let ghost tsv = views_of(ts@);
                    let mut ts2 = ts;
                    ts2.insert(0, t);
                    proof {
                        assert(views_of(ts2@) =~= seq![tv] + tsv);
                    }
                    Some((ts2, m))
                },
            }
        },
    }
}

impl TaskList {
    /// Reads a collection back from persisted text; text that does not
    /// parse as a task collection is refused as `CorruptStore`.
    pub fn from_json(s: &str) -> (r: Result<TaskList, TaskError>)
        ensures
            parse_collection(s@) is None ==> r == Err::<TaskList, TaskError>(
                TaskError::CorruptStore,
            ),
            parse_collection(s@) matches Some(ts) ==> r matches Ok(l) && l@ == ts,
    {
        let v = string_to_chars(s);
        let i0 = skip_ws_x(&v, 0);
        if i0 == v.len() {
            return Err(TaskError::CorruptStore);
        }
        if v[i0] != '[' {
            return Err(TaskError::CorruptStore);
        }
        let i1 = skip_ws_x(&v, i0 + 1);
        if i1 < v.len() && v[i1] == ']' {
            let i2 = skip_ws_x(&v, i1 + 1);
            if i2 == v.len() {
                let l = TaskList { tasks: Vec::new() };
                proof {
                    assert(l@ =~= Seq::<TaskView>::empty());
                }
                return Ok(l);
            } else {
                return Err(TaskError::CorruptStore);
            }
        }
        match parse_task_x(&v, i1) {
            None => Err(TaskError::CorruptStore),
            Some((t, j)) => {
                proof {
                    lemma_parse_task_advances(v@, i1 as int);
                }
                match parse_rest_x(&v, j) {
                    None => Err(TaskError::CorruptStore),
                    Some((ts, m)) => {
                        proof {
                            lemma_parse_rest_advances(v@, j as int);
                        }
                        let m2 = skip_ws_x(&v, m);
                        if m2 == v.len() {
                            let ghost tv = t@;
                            let ghost tsv = views_of(ts@);
                            let mut tasks = ts;
                            tasks.insert(0, t);
                            let l = TaskList { tasks };
                            proof {
                                assert(l@ =~= seq![tv] + tsv);
                            }
                            Ok(l)
                        } else {
                            Err(TaskError::CorruptStore)
                        }
                    },
                }
            },
        }
    }
}

// ===== the round trip: parsing recovers what encoding wrote =====

/// Skipping whitespace at the text's end or at a non-whitespace character
/// stays put.
proof fn lemma_skip_ws_at(s: Seq<char>, i: int)
    requires
        0 <= i <= s.len(),
        i == s.len() || !is_ws(s[i]),
    ensures
        skip_ws(s, i) == i,
{
}

/// Reading back the hex digit of a value below 16 gives the value.
proof fn lemma_hex_digit_val(v: int)
    requires
        0 <= v < 16,
    ensures
        hex_val(hex_digit(v)) == v,
{
}

/// A description's encoding, followed by a closing quote, parses back to
/// the description.
proof fn lemma_parse_encoded_string(d: Seq<char>, s: Seq<char>, i: int)
    requires
        0 <= i,
        i + encode_string(d).len() + 1 <= s.len(),
        s.subrange(i, i + encode_string(d).len()) == encode_string(d),
        s[i + encode_string(d).len()] == '"',
    ensures
        parse_string_body(s, i) == Some((d, i + encode_string(d).len() + 1)),
    decreases d.len(),
{
    let es = encode_string(d);
    let el = es.len() as int;
    assert forall|m: int| 0 <= m < el implies s[i + m] == es[m] by {
        assert(s.subrange(i, i + el)[m] == s[i + m]);
    }
    if d.len() == 0 {
        assert(es =~= Seq::<char>::empty());
        assert(d =~= Seq::<char>::empty());
        assert(s[i] == '"');
    } else {
        let c = d[0];
        let ec = encode_char(c);
        let dr = d.drop_first();
        let er = encode_string(dr);
        assert(es == ec + er);
        let k = ec.len() as int;
        assert(el == k + er.len());
        assert forall|m: int| 0 <= m < k implies s[i + m] == ec[m] by {
            assert(es[m] == ec[m]);
        }
        assert forall|m: int| 0 <= m < er.len() implies s.subrange(
            i + k,
            i + k + er.len(),
        )[m] == er[m] by {
            assert(s[i + k + m] == es[k + m]);
            assert(es[k + m] == er[m]);
        }
        assert(s.subrange(i + k, i + k + er.len()) =~= er);
        assert(s[i + k + er.len()] == '"');
        assert(seq![c] + dr =~= d);
        if c == '"' {
            assert(s[i] == '\\' && s[i + 1] == '"');
            lemma_parse_encoded_string(dr, s, i + 2);
        } else if c == '\\' {
            assert(s[i] == '\\' && s[i + 1] == '\\');
            lemma_parse_encoded_string(dr, s, i + 2);
        } else if (c as u32) < 16 {
            assert(s[i] == '\\' && s[i + 1] == 'u' && s[i + 2] == '0' && s[i + 3] == '0' && s[i
                + 4] == '0' && s[i + 5] == hex_digit(c as u32 as int));
            lemma_hex_digit_val(c as u32 as int);
            let vv = 16 * hex_val(s[i + 4]) + hex_val(s[i + 5]);
            assert(vv == c as u32);
            vstd::utf8::char_u32_cast(c, c as u32);
            assert((((c as u32)) as char) == c);
            assert(((vv as u8) as char) == c);
            lemma_parse_encoded_string(dr, s, i + 6);
        } else if (c as u32) < 32 {
            assert(s[i] == '\\' && s[i + 1] == 'u' && s[i + 2] == '0' && s[i + 3] == '0' && s[i
                + 4] == '1' && s[i + 5] == hex_digit((c as u32) - 16));
            lemma_hex_digit_val((c as u32) - 16);
            let vv = 16 * hex_val(s[i + 4]) + hex_val(s[i + 5]);
            assert(vv == c as u32);
            vstd::utf8::char_u32_cast(c, c as u32);
            assert((((c as u32)) as char) == c);
            assert(((vv as u8) as char) == c);
            lemma_parse_encoded_string(dr, s, i + 6);
        } else {
            assert(s[i] == c);
            assert(s[i] != '"' && s[i] != '\\' && (s[i] as u32) >= 32);
            lemma_parse_encoded_string(dr, s, i + 1);
        }
    }
}

/// A boolean's encoding parses back to the boolean.
proof fn lemma_parse_encoded_bool(b: bool, s: Seq<char>, i: int)
    requires
        0 <= i,
        i + encode_bool(b).len() <= s.len(),
        s.subrange(i, i + encode_bool(b).len()) == encode_bool(b),
    ensures
        parse_bool(s, i) == Some((b, i + encode_bool(b).len())),
{
    let eb = encode_bool(b);
    assert forall|m: int| 0 <= m < eb.len() implies s[i + m] == eb[m] by {
        assert(s.subrange(i, i + eb.len())[m] == s[i + m]);
    }
    if b {
        assert(s[i] == 't' && s[i + 1] == 'r' && s[i + 2] == 'u' && s[i + 3] == 'e');
    } else {
        assert(s[i] == 'f' && s[i + 1] == 'a' && s[i + 2] == 'l' && s[i + 3] == 's' && s[i + 4]
            == 'e');
    }
}

/// A task's encoding parses back to the task.
#[verifier::rlimit(100)]
proof fn lemma_parse_encoded_task(t: TaskView, s: Seq<char>, i: int)
    requires
        0 <= i,
        i + encode_task(t).len() <= s.len(),
        s.subrange(i, i + encode_task(t).len()) == encode_task(t),
    ensures
        parse_task(s, i) == Some((t, i + encode_task(t).len())),
{
    let et = encode_task(t);
    let etl = et.len() as int;
    let dp = desc_prefix();
    let es = encode_string(t.description);
    let esl = es.len() as int;
    let cm = comp_mid();
    let eb = encode_bool(t.completed);
    let ebl = eb.len() as int;
    assert(etl == 31 + esl + ebl);
    assert forall|m: int| 0 <= m < etl implies s[i + m] == et[m] by {
        assert(s.subrange(i, i + etl)[m] == s[i + m]);
    }
    assert forall|m: int| 0 <= m < 16 implies et[m] == dp[m] by {}
    assert forall|m: int| 0 <= m < esl implies et[16 + m] == es[m] by {}
    assert forall|m: int| 0 <= m < 13 implies et[17 + esl + m] == cm[m] by {}
    assert forall|m: int| 0 <= m < ebl implies et[30 + esl + m] == eb[m] by {}

    // the opening brace
    assert(dp[0] == '{');
    assert(et[0] == dp[0]);
    assert(s[i + 0] == et[0]);
    lemma_skip_ws_at(s, i);
    // the description key
    assert(dp[1] == '"');
    assert(et[1] == dp[1]);
    assert(s[i + 1] == et[1]);
    lemma_skip_ws_at(s, i + 1);
    assert forall|m: int| 0 <= m < 13 implies s.subrange(i + 1, i + 14)[m] == desc_key()[m] by {
        assert(desc_key()[m] == dp[1 + m]);
        assert(et[1 + m] == dp[1 + m]);
        assert(s[i + 1 + m] == et[1 + m]);
        assert(s.subrange(i + 1, i + 14)[m] == s[i + 1 + m]);
    }
    assert(s.subrange(i + 1, i + 14) =~= desc_key());
    assert(match_lit(s, i + 1, desc_key()));
    // the colon and the opening quote
    assert(dp[14] == ':');
    assert(et[14] == dp[14]);
    assert(s[i + 14] == et[14]);
    lemma_skip_ws_at(s, i + 14);
    assert(dp[15] == '"');
    assert(et[15] == dp[15]);
    assert(s[i + 15] == et[15]);
    lemma_skip_ws_at(s, i + 15);
    // the description itself
    assert forall|m: int| 0 <= m < esl implies s.subrange(i + 16, i + 16 + esl)[m] == es[m] by {
        assert(et[16 + m] == es[m]);
        assert(s[i + 16 + m] == et[16 + m]);
        assert(s.subrange(i + 16, i + 16 + esl)[m] == s[i + 16 + m]);
    }
    assert(s.subrange(i + 16, i + 16 + esl) =~= es);
    assert(et[16 + esl] == '"');
    assert(s[i + 16 + esl] == et[16 + esl]);
    lemma_parse_encoded_string(t.description, s, i + 16);
    let p = i + 17 + esl;
    // the comma and the completed key
    assert(cm[0] == ',');
    assert(et[17 + esl + 0] == cm[0]);
    assert(s[i + 17 + esl + 0] == et[17 + esl + 0]);
    assert(s[p] == ',');
    lemma_skip_ws_at(s, p);
    assert(cm[1] == '"');
    assert(et[17 + esl + 1] == cm[1]);
    assert(s[i + 17 + esl + 1] == et[17 + esl + 1]);
    lemma_skip_ws_at(s, p + 1);
    assert forall|m: int| 0 <= m < 11 implies s.subrange(p + 1, p + 12)[m] == comp_key()[m] by {
        assert(comp_key()[m] == cm[1 + m]);
        assert(et[17 + esl + 1 + m] == cm[1 + m]);
        assert(s[i + 17 + esl + 1 + m] == et[17 + esl + 1 + m]);
        assert(s.subrange(p + 1, p + 12)[m] == s[p + 1 + m]);
    }
    assert(s.subrange(p + 1, p + 12) =~= comp_key());
    assert(match_lit(s, p + 1, comp_key()));
    // the colon and the boolean
    assert(cm[12] == ':');
    assert(et[17 + esl + 12] == cm[12]);
    assert(s[i + 17 + esl + 12] == et[17 + esl + 12]);
    assert(s[p + 12] == ':');
    lemma_skip_ws_at(s, p + 12);
    if t.completed {
        assert(eb[0] == 't');
    } else {
        assert(eb[0] == 'f');
    }
    assert(et[30 + esl + 0] == eb[0]);
    assert(s[i + 30 + esl + 0] == et[30 + esl + 0]);
    assert(s[p + 13] == eb[0]);
    lemma_skip_ws_at(s, p + 13);
    assert forall|m: int| 0 <= m < ebl implies s.subrange(p + 13, p + 13 + ebl)[m] == eb[m] by {
        assert(et[30 + esl + m] == eb[m]);
        assert(s[i + 30 + esl + m] == et[30 + esl + m]);
        assert(s.subrange(p + 13, p + 13 + ebl)[m] == s[p + 13 + m]);
    }
    assert(s.subrange(p + 13, p + 13 + ebl) =~= eb);
    lemma_parse_encoded_bool(t.completed, s, p + 13);
    // the closing brace
    assert(et[30 + esl + ebl] == '}');
    assert(s[i + 30 + esl + ebl] == et[30 + esl + ebl]);
    assert(s[p + 13 + ebl] == '}');
    lemma_skip_ws_at(s, p + 13 + ebl);
    assert(TaskView { description: t.description, completed: t.completed } == t);
    assert(p + 13 + ebl + 1 == i + etl);
}

/// The encoding of a collection's tail, followed by the closing bracket,
/// parses back to the tail.
proof fn lemma_parse_encoded_rest(ts: Seq<TaskView>, s: Seq<char>, i: int)
    requires
        0 <= i,
        i + encode_rest(ts).len() + 1 <= s.len(),
        s.subrange(i, i + encode_rest(ts).len()) == encode_rest(ts),
        s[i + encode_rest(ts).len()] == ']',
    ensures
        parse_rest(s, i) == Some((ts, i + encode_rest(ts).len() + 1)),
    decreases ts.len(),
{
    let er = encode_rest(ts);
    let erl = er.len() as int;
    assert forall|m: int| 0 <= m < erl implies s[i + m] == er[m] by {
        assert(s.subrange(i, i + erl)[m] == s[i + m]);
    }
    if ts.len() == 0 {
        assert(er =~= Seq::<char>::empty());
        assert(s[i] == ']');
        lemma_skip_ws_at(s, i);
        assert(ts =~= Seq::<TaskView>::empty());
    } else {
        let t0 = ts[0];
        let et = encode_task(t0);
        let etl = et.len() as int;
        let tr = ts.drop_first();
        let err = encode_rest(tr);
        let errl = err.len() as int;
        assert(er == seq![','] + et + err);
        assert(erl == 1 + etl + errl);
        assert(er[0] == ',');
        assert(s[i + 0] == er[0]);
        assert(s[i] == ',');
        lemma_skip_ws_at(s, i);
        assert forall|m: int| 0 <= m < etl implies s.subrange(i + 1, i + 1 + etl)[m] == et[m] by {
            assert(er[1 + m] == et[m]);
            assert(s[i + 1 + m] == er[1 + m]);
            assert(s.subrange(i + 1, i + 1 + etl)[m] == s[i + 1 + m]);
        }
        assert(s.subrange(i + 1, i + 1 + etl) =~= et);
        lemma_parse_encoded_task(t0, s, i + 1);
        let k = i + 1 + etl;
        assert forall|m: int| 0 <= m < errl implies s.subrange(k, k + errl)[m] == err[m] by {
            assert(er[1 + etl + m] == err[m]);
            assert(s[i + 1 + etl + m] == er[1 + etl + m]);
            assert(s.subrange(k, k + errl)[m] == s[k + m]);
        }
        assert(s.subrange(k, k + errl) =~= err);
        assert(s[k + errl] == ']');
        lemma_parse_encoded_rest(tr, s, k);
        assert(seq![t0] + tr =~= ts);
    }
}

/// The round trip: parsing the canonical encoding of any collection yields
/// exactly that collection, so what the store writes it reads back
/// unchanged, order and field values included.
#[verifier::rlimit(100)]
pub proof fn lemma_json_round_trip(ts: Seq<TaskView>)
    ensures
        parse_collection(encode_list(ts)) == Some(ts),
{
    let s = encode_list(ts);
    if ts.len() == 0 {
        assert(s == seq!['[', ']']);
        assert(s[0] == '[' && s[1] == ']');
        lemma_skip_ws_at(s, 0);
        lemma_skip_ws_at(s, 1);
        lemma_skip_ws_at(s, 2);
        assert(ts =~= Seq::<TaskView>::empty());
    } else {
        let t0 = ts[0];
        let et = encode_task(t0);
        let etl = et.len() as int;
        let tr = ts.drop_first();
        let er = encode_rest(tr);
        let erl = er.len() as int;
        assert(s == seq!['['] + et + er + seq![']']);
        assert(s.len() == 1 + etl + erl + 1);
        assert(s[0] == '[');
        lemma_skip_ws_at(s, 0);
        assert(desc_prefix()[0] == '{');
        assert(et[0] == desc_prefix()[0]);
        assert(s[1] == et[0]);
        lemma_skip_ws_at(s, 1);
        assert(s[1] != ']');
        assert forall|m: int| 0 <= m < etl implies s.subrange(1, 1 + etl)[m] == et[m] by {
            assert(s[1 + m] == et[m]);
            assert(s.subrange(1, 1 + etl)[m] == s[1 + m]);
        }
        assert(s.subrange(1, 1 + etl) =~= et);
        lemma_parse_encoded_task(t0, s, 1);
        let k = 1 + etl;
        assert forall|m: int| 0 <= m < erl implies s.subrange(k, k + erl)[m] == er[m] by {
            assert(s[k + m] == er[m]);
            assert(s.subrange(k, k + erl)[m] == s[k + m]);
        }
        assert(s.subrange(k, k + erl) =~= er);
        assert(s[k + erl] == ']');
        lemma_parse_encoded_rest(tr, s, k);
        lemma_skip_ws_at(s, s.len() as int);
        assert(seq![t0] + tr =~= ts);
    }
}

} // verus!
