use vstd::prelude::*;

use crate::model::ListView;
use crate::model::StoreView;
use crate::model::store_wf;
use crate::task::TaskView;

verus! {

// The persisted form of a store is one object that maps each list name to
// its array of tasks, every task an object of a name and a checked flag:
//
//     {"work":[{"name":"buy milk","checked":false}],"home":[]}
//
// `encode_store` below is that form, character for character; the parse
// functions accept it back, with whitespace between tokens and the usual
// string escapes, and `lemma_store_roundtrip` shows that what was written
// is read back unchanged.

/// The unicode scalar value of a character.
pub open spec fn code_of(c: char) -> int {
    (c as u32) as int
}

/// The character with the given unicode scalar value, under `valid_scalar`.
pub open spec fn char_from_code(code: int) -> char {
    choose|c: char| code_of(c) == code
}

/// Is `code` a unicode scalar value, one a character can carry?
pub open spec fn valid_scalar(code: int) -> bool {
    (0 <= code < 0xD800) || (0xE000 <= code <= 0x10FFFF)
}

/// The lower-case hexadecimal digit of a value below sixteen.
pub open spec fn hex_char(d: int) -> char {
    if d == 0 {
        '0'
    } else if d == 1 {
        '1'
    } else if d == 2 {
        '2'
    } else if d == 3 {
        '3'
    } else if d == 4 {
        '4'
    } else if d == 5 {
        '5'
    } else if d == 6 {
        '6'
    } else if d == 7 {
        '7'
    } else if d == 8 {
        '8'
    } else if d == 9 {
        '9'
    } else if d == 10 {
        'a'
    } else if d == 11 {
        'b'
    } else if d == 12 {
        'c'
    } else if d == 13 {
        'd'
    } else if d == 14 {
        'e'
    } else {
        'f'
    }
}

/// The value of a hexadecimal digit, either case; minus one for any other
/// character.
pub open spec fn hex_val(c: char) -> int {
    let n = code_of(c);
    if 48 <= n <= 57 {
        n - 48
    } else if 97 <= n <= 102 {
        n - 87
    } else if 65 <= n <= 70 {
        n - 55
    } else {
        -1
    }
}

/// Is the character a hexadecimal digit?
pub open spec fn is_hex(c: char) -> bool {
    hex_val(c) >= 0
}

/// How one character is written inside a string: itself, or an escape for
/// the quote, the backslash and the control characters.
pub open spec fn encode_char(c: char) -> Seq<char> {
    if c == '"' {
        seq!['\\', '"']
    } else if c == '\\' {
        seq!['\\', '\\']
    } else if code_of(c) < 32 {
        seq!['\\', 'u', '0', '0', hex_char(code_of(c) / 16), hex_char(code_of(c) % 16)]
    } else {
        seq![c]
    }
}

/// A string's characters as written, character after character.
pub open spec fn encode_str_body(s: Seq<char>) -> Seq<char>
    decreases s.len(),
{
    if s.len() == 0 {
        Seq::empty()
    } else {
        encode_char(s[0]) + encode_str_body(s.skip(1))
    }
}

/// A string as written: quoted and escaped.
pub open spec fn encode_string(s: Seq<char>) -> Seq<char> {
    seq!['"'] + encode_str_body(s) + seq!['"']
}

/// A boolean as written.
pub open spec fn encode_bool(b: bool) -> Seq<char> {
    if b {
        seq!['t', 'r', 'u', 'e']
    } else {
        seq!['f', 'a', 'l', 's', 'e']
    }
}

/// The object key before a task's name.
pub open spec fn name_key() -> Seq<char> {
    seq!['"', 'n', 'a', 'm', 'e', '"']
}

/// The object key before a task's checked flag.
pub open spec fn checked_key() -> Seq<char> {
    seq!['"', 'c', 'h', 'e', 'c', 'k', 'e', 'd', '"']
}

/// A task as written: an object of its name and its checked flag.
pub open spec fn encode_task(t: TaskView) -> Seq<char> {
    seq!['{'] + name_key() + seq![':'] + encode_string(t.name) + seq![','] + checked_key() + seq![
        ':',
    ] + encode_bool(t.checked) + seq!['}']
}

/// The tasks after the first, each behind a comma, then the closing bracket.
pub open spec fn encode_tasks_tail(ts: Seq<TaskView>) -> Seq<char>
    decreases ts.len(),
{
    if ts.len() == 0 {
        seq![']']
    } else {
        seq![','] + encode_task(ts[0]) + encode_tasks_tail(ts.skip(1))
    }
}

/// A task sequence as written: a bracketed, comma-separated array.
pub open spec fn encode_tasks(ts: Seq<TaskView>) -> Seq<char> {
    if ts.len() == 0 {
        seq!['[', ']']
    } else {
        seq!['['] + encode_task(ts[0]) + encode_tasks_tail(ts.skip(1))
    }
}

/// One list as written: its quoted name, a colon, its tasks.
pub open spec fn encode_entry(l: ListView) -> Seq<char> {
    encode_string(l.name) + seq![':'] + encode_tasks(l.tasks)
}

/// The lists after the first, each behind a comma, then the closing brace.
pub open spec fn encode_entries_tail(s: StoreView) -> Seq<char>
    decreases s.len(),
{
    if s.len() == 0 {
        seq!['}']
    } else {
        seq![','] + encode_entry(s[0]) + encode_entries_tail(s.skip(1))
    }
}

/// The whole store as written: one object, a member per list, in
/// enumeration order.
pub open spec fn encode_store(s: StoreView) -> Seq<char> {
    if s.len() == 0 {
        seq!['{', '}']
    } else {
        seq!['{'] + encode_entry(s[0]) + encode_entries_tail(s.skip(1))
    }
}

/// Is the character insignificant whitespace between tokens?
pub open spec fn is_ws(c: char) -> bool {
    c == ' ' || c == '\n' || c == '\t' || c == '\r'
}

/// The text with its leading whitespace dropped.
pub open spec fn skip_ws(s: Seq<char>) -> Seq<char>
    decreases s.len(),
{
    if s.len() > 0 && is_ws(s[0]) {
        skip_ws(s.skip(1))
    } else {
        s
    }
}

/// The simple escapes: what the character after a backslash stands for.
pub open spec fn unescaped(e: char) -> Option<char> {
    if e == '"' {
        Some('"')
    } else if e == '\\' {
        Some('\\')
    } else if e == '/' {
        Some('/')
    } else if e == 'b' {
        Some('\u{8}')
    } else if e == 'f' {
        Some('\u{c}')
    } else if e == 'n' {
        Some('\n')
    } else if e == 'r' {
        Some('\r')
    } else if e == 't' {
        Some('\t')
    } else {
        None
    }
}

/// Reads a string's characters up to and over its closing quote; what they
/// stand for, and the text after the quote.
pub open spec fn parse_str_body(s: Seq<char>) -> Option<(Seq<char>, Seq<char>)>
    decreases s.len(),
{
    if s.len() == 0 {
        None
    } else if s[0] == '"' {
        Some((Seq::empty(), s.skip(1)))
    } else if s[0] == '\\' {
        if s.len() < 2 {
            None
        } else if s[1] == 'u' {
            if s.len() < 6 {
                None
            } else if is_hex(s[2]) && is_hex(s[3]) && is_hex(s[4]) && is_hex(s[5]) {
                let code = hex_val(s[2]) * 4096 + hex_val(s[3]) * 256 + hex_val(s[4]) * 16
                    + hex_val(s[5]);
                if valid_scalar(code) {
                    match parse_str_body(s.skip(6)) {
                        Some(p) => Some((seq![char_from_code(code)] + p.0, p.1)),
                        None => None,
                    }
                } else {
                    None
                }
            } else {
                None
            }
        } else {
            match unescaped(s[1]) {
                Some(c) => match parse_str_body(s.skip(2)) {
                    Some(p) => Some((seq![c] + p.0, p.1)),
                    None => None,
                },
                None => None,
            }
        }
    } else {
        match parse_str_body(s.skip(1)) {
            Some(p) => Some((seq![s[0]] + p.0, p.1)),
            None => None,
        }
    }
}

/// Reads a quoted string.
pub open spec fn parse_string(s: Seq<char>) -> Option<(Seq<char>, Seq<char>)> {
    if s.len() > 0 && s[0] == '"' {
        parse_str_body(s.skip(1))
    } else {
        None
    }
}

/// Reads the given keyword off the front of the text.
pub open spec fn parse_exact(s: Seq<char>, kw: Seq<char>) -> Option<Seq<char>> {
    if s.len() >= kw.len() && s.take(kw.len() as int) == kw {
        Some(s.skip(kw.len() as int))
    } else {
        None
    }
}

/// Reads a boolean.
pub open spec fn parse_bool(s: Seq<char>) -> Option<(bool, Seq<char>)> {
    if s.len() >= 4 && s.take(4) == seq!['t', 'r', 'u', 'e'] {
        Some((true, s.skip(4)))
    } else if s.len() >= 5 && s.take(5) == seq!['f', 'a', 'l', 's', 'e'] {
        Some((false, s.skip(5)))
    } else {
        None
    }
}

/// Reads the name member of a task object: its key, a colon, its string.
pub open spec fn parse_name_field(s: Seq<char>) -> Option<(Seq<char>, Seq<char>)> {
    match parse_exact(skip_ws(s), name_key()) {
        Some(s2) => {
            let s3 = skip_ws(s2);
            if s3.len() > 0 && s3[0] == ':' {
                parse_string(skip_ws(s3.skip(1)))
            } else {
                None
            }
        },
        None => None,
    }
}

/// Reads the checked member of a task object: its key, a colon, its
/// boolean.
pub open spec fn parse_checked_field(s: Seq<char>) -> Option<(bool, Seq<char>)> {
    match parse_exact(skip_ws(s), checked_key()) {
        Some(s2) => {
            let s3 = skip_ws(s2);
            if s3.len() > 0 && s3[0] == ':' {
                parse_bool(skip_ws(s3.skip(1)))
            } else {
                None
            }
        },
        None => None,
    }
}

/// Reads one task object: its two members, in either order, braces and the
/// comma around them.
pub open spec fn parse_task(s: Seq<char>) -> Option<(TaskView, Seq<char>)> {
    let s0 = skip_ws(s);
    if s0.len() > 0 && s0[0] == '{' {
        let body = s0.skip(1);
        match parse_name_field(body) {
            Some(p) => {
                let s5 = skip_ws(p.1);
                if s5.len() > 0 && s5[0] == ',' {
                    match parse_checked_field(s5.skip(1)) {
                        Some(q) => {
                            let s10 = skip_ws(q.1);
                            if s10.len() > 0 && s10[0] == '}' {
                                Some((TaskView { name: p.0, checked: q.0 }, s10.skip(1)))
                            } else {
                                None
                            }
                        },
                        None => None,
                    }
                } else {
                    None
                }
            },
            None => match parse_checked_field(body) {
                Some(q) => {
                    let s5 = skip_ws(q.1);
                    if s5.len() > 0 && s5[0] == ',' {
                        match parse_name_field(s5.skip(1)) {
                            Some(p) => {
                                let s10 = skip_ws(p.1);
                                if s10.len() > 0 && s10[0] == '}' {
                                    Some((TaskView { name: p.0, checked: q.0 }, s10.skip(1)))
                                } else {
                                    None
                                }
                            },
                            None => None,
                        }
                    } else {
                        None
                    }
                },
                None => None,
            },
        }
    } else {
        None
    }
}

/// Reads the rest of a task array after one task: either the closing
/// bracket, or a comma and another task, and so on.
pub open spec fn parse_tasks_rest(s: Seq<char>) -> Option<(Seq<TaskView>, Seq<char>)>
    decreases s.len(),
    via parse_tasks_rest_decreases
{
    let s0 = skip_ws(s);
    if s0.len() > 0 && s0[0] == ']' {
        Some((Seq::empty(), s0.skip(1)))
    } else if s0.len() > 0 && s0[0] == ',' {
        match parse_task(s0.skip(1)) {
            Some(p) => match parse_tasks_rest(p.1) {
                Some(q) => Some((seq![p.0] + q.0, q.1)),
                None => None,
            },
            None => None,
        }
    } else {
        None
    }
}

#[via_fn]
proof fn parse_tasks_rest_decreases(s: Seq<char>) {
    lemma_skip_ws_le(s);
    let s0 = skip_ws(s);
    if s0.len() > 0 && s0[0] == ',' {
        lemma_parse_task_shrinks(s0.skip(1));
    }
}

/// Reads a whole task array.
pub open spec fn parse_tasks(s: Seq<char>) -> Option<(Seq<TaskView>, Seq<char>)> {
    let s0 = skip_ws(s);
    if s0.len() > 0 && s0[0] == '[' {
        let s1 = skip_ws(s0.skip(1));
        if s1.len() > 0 && s1[0] == ']' {
            Some((Seq::empty(), s1.skip(1)))
        } else {
            match parse_task(s0.skip(1)) {
                Some(p) => match parse_tasks_rest(p.1) {
                    Some(q) => Some((seq![p.0] + q.0, q.1)),
                    None => None,
                },
                None => None,
            }
        }
    } else {
        None
    }
}

/// Reads one list member: its quoted name, a colon, its task array.
pub open spec fn parse_entry(s: Seq<char>) -> Option<(ListView, Seq<char>)> {
    match parse_string(skip_ws(s)) {
        Some(p) => {
            let s1 = skip_ws(p.1);
            if s1.len() > 0 && s1[0] == ':' {
                match parse_tasks(s1.skip(1)) {
                    Some(q) => Some((ListView { name: p.0, tasks: q.0 }, q.1)),
                    None => None,
                }
            } else {
                None
            }
        },
        None => None,
    }
}

/// Reads the rest of the store object after one member: either the closing
/// brace, or a comma and another member, and so on.
pub open spec fn parse_entries_rest(s: Seq<char>) -> Option<(StoreView, Seq<char>)>
    decreases s.len(),
    via parse_entries_rest_decreases
{
    let s0 = skip_ws(s);
    if s0.len() > 0 && s0[0] == '}' {
        Some((Seq::empty(), s0.skip(1)))
    } else if s0.len() > 0 && s0[0] == ',' {
        match parse_entry(s0.skip(1)) {
            Some(p) => match parse_entries_rest(p.1) {
                Some(q) => Some((seq![p.0] + q.0, q.1)),
                None => None,
            },
            None => None,
        }
    } else {
        None
    }
}

#[via_fn]
proof fn parse_entries_rest_decreases(s: Seq<char>) {
    lemma_skip_ws_le(s);
    let s0 = skip_ws(s);
    if s0.len() > 0 && s0[0] == ',' {
        lemma_parse_entry_shrinks(s0.skip(1));
    }
}

/// Reads the store object itself, leaving whatever follows it.
pub open spec fn parse_store_raw(s: Seq<char>) -> Option<(StoreView, Seq<char>)> {
    let s0 = skip_ws(s);
    if s0.len() > 0 && s0[0] == '{' {
        let s1 = skip_ws(s0.skip(1));
        if s1.len() > 0 && s1[0] == '}' {
            Some((Seq::empty(), s1.skip(1)))
        } else {
            match parse_entry(s0.skip(1)) {
                Some(p) => match parse_entries_rest(p.1) {
                    Some(q) => Some((seq![p.0] + q.0, q.1)),
                    None => None,
                },
                None => None,
            }
        }
    } else {
        None
    }
}

/// What a text means as a persisted store: the store object with nothing
/// but whitespace behind it, and only if what it holds is well-formed.
pub open spec fn parse_store(s: Seq<char>) -> Option<StoreView> {
    match parse_store_raw(s) {
        Some(p) => {
            if skip_ws(p.1).len() == 0 && store_wf(p.0) {
                Some(p.0)
            } else {
                None
            }
        },
        None => None,
    }
}

/// Dropping whitespace never lengthens the text.
pub proof fn lemma_skip_ws_le(s: Seq<char>)
    ensures
        skip_ws(s).len() <= s.len(),
    decreases s.len(),
{
    if s.len() > 0 && is_ws(s[0]) {
        lemma_skip_ws_le(s.skip(1));
    }
}

/// A parsed string body always consumes at least its closing quote.
pub proof fn lemma_parse_str_body_shrinks(s: Seq<char>)
    ensures
        parse_str_body(s) matches Some(p) ==> p.1.len() < s.len(),
    decreases s.len(),
{
    if s.len() == 0 {
    } else if s[0] == '"' {
    } else if s[0] == '\\' {
        if s.len() >= 6 {
            lemma_parse_str_body_shrinks(s.skip(6));
        }
        if s.len() >= 2 {
            lemma_parse_str_body_shrinks(s.skip(2));
        }
    } else {
        lemma_parse_str_body_shrinks(s.skip(1));
    }
}

/// A parsed string always consumes at least its quotes.
pub proof fn lemma_parse_string_shrinks(s: Seq<char>)
    ensures
        parse_string(s) matches Some(p) ==> p.1.len() < s.len(),
{
    if s.len() > 0 && s[0] == '"' {
        lemma_parse_str_body_shrinks(s.skip(1));
    }
}

/// A parsed name member always consumes at least its key.
pub proof fn lemma_parse_name_field_shrinks(s: Seq<char>)
    ensures
        parse_name_field(s) matches Some(p) ==> p.1.len() < s.len(),
{
    lemma_skip_ws_le(s);
    if let Some(s2) = parse_exact(skip_ws(s), name_key()) {
        lemma_skip_ws_le(s2);
        let s3 = skip_ws(s2);
        if s3.len() > 0 && s3[0] == ':' {
            lemma_skip_ws_le(s3.skip(1));
            lemma_parse_string_shrinks(skip_ws(s3.skip(1)));
        }
    }
}

/// A parsed checked member always consumes at least its key.
pub proof fn lemma_parse_checked_field_shrinks(s: Seq<char>)
    ensures
        parse_checked_field(s) matches Some(p) ==> p.1.len() < s.len(),
{
    lemma_skip_ws_le(s);
    if let Some(s2) = parse_exact(skip_ws(s), checked_key()) {
        lemma_skip_ws_le(s2);
        let s3 = skip_ws(s2);
        if s3.len() > 0 && s3[0] == ':' {
            lemma_skip_ws_le(s3.skip(1));
        }
    }
}

/// A parsed task always consumes at least its braces.
pub proof fn lemma_parse_task_shrinks(s: Seq<char>)
    ensures
        parse_task(s) matches Some(p) ==> p.1.len() < s.len(),
{
    lemma_skip_ws_le(s);
    let s0 = skip_ws(s);
    if s0.len() > 0 && s0[0] == '{' {
        let body = s0.skip(1);
        lemma_parse_name_field_shrinks(body);
        lemma_parse_checked_field_shrinks(body);
        if let Some(p) = parse_name_field(body) {
            lemma_skip_ws_le(p.1);
            let s5 = skip_ws(p.1);
            if s5.len() > 0 && s5[0] == ',' {
                lemma_parse_checked_field_shrinks(s5.skip(1));
                if let Some(q) = parse_checked_field(s5.skip(1)) {
                    lemma_skip_ws_le(q.1);
                }
            }
        } else {
            if let Some(q) = parse_checked_field(body) {
                lemma_skip_ws_le(q.1);
                let s5 = skip_ws(q.1);
                if s5.len() > 0 && s5[0] == ',' {
                    lemma_parse_name_field_shrinks(s5.skip(1));
                    if let Some(p) = parse_name_field(s5.skip(1)) {
                        lemma_skip_ws_le(p.1);
                    }
                }
            }
        }
    }
}

/// A parsed task array always consumes at least its brackets.
pub proof fn lemma_parse_tasks_shrinks(s: Seq<char>)
    ensures
        parse_tasks(s) matches Some(p) ==> p.1.len() < s.len(),
{
    lemma_skip_ws_le(s);
    let s0 = skip_ws(s);
    if s0.len() > 0 && s0[0] == '[' {
        lemma_skip_ws_le(s0.skip(1));
        lemma_parse_task_shrinks(s0.skip(1));
        if let Some(p) = parse_task(s0.skip(1)) {
            lemma_parse_tasks_rest_le(p.1);
        }
    }
}

/// The rest of a task array never grows while it is read.
pub proof fn lemma_parse_tasks_rest_le(s: Seq<char>)
    ensures
        parse_tasks_rest(s) matches Some(p) ==> p.1.len() <= s.len(),
    decreases s.len(),
{
    lemma_skip_ws_le(s);
    let s0 = skip_ws(s);
    if s0.len() > 0 && s0[0] == ',' {
        lemma_parse_task_shrinks(s0.skip(1));
        if let Some(p) = parse_task(s0.skip(1)) {
            lemma_parse_tasks_rest_le(p.1);
        }
    }
}

/// A parsed list member always consumes at least its name.
pub proof fn lemma_parse_entry_shrinks(s: Seq<char>)
    ensures
        parse_entry(s) matches Some(p) ==> p.1.len() < s.len(),
{
    lemma_skip_ws_le(s);
    lemma_parse_string_shrinks(skip_ws(s));
    if let Some(p) = parse_string(skip_ws(s)) {
        lemma_skip_ws_le(p.1);
        let s1 = skip_ws(p.1);
        if s1.len() > 0 && s1[0] == ':' {
            lemma_parse_tasks_shrinks(s1.skip(1));
        }
    }
}

// The round-trip argument: every encoder above is inverted by its parser,
// whatever text follows the encoded piece.

/// Dropping whitespace where none leads does nothing.
pub proof fn lemma_skip_ws_noop(s: Seq<char>)
    requires
        s.len() == 0 || !is_ws(s[0]),
    ensures
        skip_ws(s) == s,
{
}

/// Two characters with one unicode scalar value are one character.
pub(crate) proof fn lemma_char_injective(a: char, b: char)
    requires
        a as u32 == b as u32,
    ensures
        a == b,
{
}

/// The hexadecimal digit characters read back as their values.
pub proof fn lemma_hex_char_val(d: int)
    requires
        0 <= d < 16,
    ensures
        is_hex(hex_char(d)),
        hex_val(hex_char(d)) == d,
{
}

/// An encoded string body, its closing quote behind it, reads back as the
/// string it encoded.
pub proof fn lemma_rt_str_body(v: Seq<char>, rest: Seq<char>)
    ensures
        parse_str_body(encode_str_body(v) + seq!['"'] + rest) == Some((v, rest)),
    decreases v.len(),
{
    let s = encode_str_body(v) + seq!['"'] + rest;
    if v.len() == 0 {
        assert(s =~= seq!['"'] + rest);
        assert(s[0] == '"');
        assert(s.skip(1) =~= rest);
    } else {
        let c = v[0];
        let e = encode_char(c);
        let tail = encode_str_body(v.skip(1)) + seq!['"'] + rest;
        assert(s =~= e + tail);
        lemma_rt_str_body(v.skip(1), rest);
        assert(seq![c] + v.skip(1) =~= v);
        if c == '"' {
            assert(s[0] == '\\' && s[1] == '"');
            assert(s.skip(2) =~= tail);
        } else if c == '\\' {
            assert(s[0] == '\\' && s[1] == '\\');
            assert(s.skip(2) =~= tail);
        } else if code_of(c) < 32 {
            let code = code_of(c);
            let d1 = code / 16;
            let d2 = code % 16;
            assert(0 <= code < 32);
            vstd::arithmetic::div_mod::lemma_fundamental_div_mod(code, 16);
            vstd::arithmetic::div_mod::lemma_mod_bound(code, 16);
            assert(16 * d1 + d2 == code);
            assert(0 <= d1 < 16 && 0 <= d2 < 16);
            lemma_hex_char_val(d1);
            lemma_hex_char_val(d2);
            assert(s[0] == '\\' && s[1] == 'u' && s[2] == '0' && s[3] == '0' && s[4] == hex_char(d1)
                && s[5] == hex_char(d2));
            assert(hex_val('0') == 0);
            assert(hex_val(s[2]) * 4096 + hex_val(s[3]) * 256 + hex_val(s[4]) * 16 + hex_val(s[5])
                == code);
            assert(valid_scalar(code));
            assert(code_of(c) == code);
            assert(exists|cc: char| code_of(cc) == code);
            let cc = char_from_code(code);
            assert(code_of(cc) == code);
            assert(cc as u32 == c as u32);
            lemma_char_injective(cc, c);
            assert(cc == c);
            assert(s.skip(6) =~= tail);
        } else {
            assert(s[0] == c);
            assert(s.skip(1) =~= tail);
        }
    }
}

/// An encoded string reads back as itself.
pub proof fn lemma_rt_string(v: Seq<char>, rest: Seq<char>)
    ensures
        parse_string(encode_string(v) + rest) == Some((v, rest)),
{
    let s = encode_string(v) + rest;
    assert(s[0] == '"');
    assert(s.skip(1) =~= encode_str_body(v) + seq!['"'] + rest);
    lemma_rt_str_body(v, rest);
}

/// A keyword at the front of the text is read off whole.
pub proof fn lemma_rt_exact(kw: Seq<char>, rest: Seq<char>)
    ensures
        parse_exact(kw + rest, kw) == Some(rest),
{
    let s = kw + rest;
    assert(s.take(kw.len() as int) =~= kw);
    assert(s.skip(kw.len() as int) =~= rest);
}

/// An encoded boolean reads back as itself.
pub proof fn lemma_rt_bool(b: bool, rest: Seq<char>)
    ensures
        parse_bool(encode_bool(b) + rest) == Some((b, rest)),
{
    let s = encode_bool(b) + rest;
    if b {
        assert(s.take(4) =~= seq!['t', 'r', 'u', 'e']);
        assert(s.skip(4) =~= rest);
    } else {
        assert(s.take(5) =~= seq!['f', 'a', 'l', 's', 'e']);
        assert(s.skip(5) =~= rest);
        assert(s[0] == 'f');
        if s.len() >= 4 && s.take(4) == seq!['t', 'r', 'u', 'e'] {
            assert(s.take(4)[0] == 'f');
            assert(false);
        }
    }
}

/// An encoded task reads back as itself.
#[verifier::rlimit(60)]
pub proof fn lemma_rt_task(t: TaskView, rest: Seq<char>)
    ensures
        parse_task(encode_task(t) + rest) == Some((t, rest)),
{
    let s = encode_task(t) + rest;
    let r3 = seq![','] + checked_key() + seq![':'] + encode_bool(t.checked) + seq!['}'] + rest;
    let r7 = encode_bool(t.checked) + (seq!['}'] + rest);
    lemma_skip_ws_noop(s);
    assert(s[0] == '{');
    let body = s.skip(1);
    assert(body =~= name_key() + (seq![':'] + encode_string(t.name) + r3));
    lemma_skip_ws_noop(body);
    lemma_rt_exact(name_key(), seq![':'] + encode_string(t.name) + r3);
    let s2 = seq![':'] + encode_string(t.name) + r3;
    lemma_skip_ws_noop(s2);
    assert(s2[0] == ':');
    assert(s2.skip(1) =~= encode_string(t.name) + r3);
    lemma_skip_ws_noop(s2.skip(1));
    assert((encode_string(t.name) + r3)[0] == '"');
    lemma_rt_string(t.name, r3);
    assert(parse_name_field(body) == Some((t.name, r3)));
    lemma_skip_ws_noop(r3);
    assert(r3[0] == ',');
    assert(r3.skip(1) =~= checked_key() + (seq![':'] + r7));
    lemma_skip_ws_noop(r3.skip(1));
    lemma_rt_exact(checked_key(), seq![':'] + r7);
    let s8 = seq![':'] + r7;
    lemma_skip_ws_noop(s8);
    assert(s8[0] == ':');
    assert(s8.skip(1) =~= r7);
    lemma_skip_ws_noop(r7);
    assert(r7[0] == (if t.checked {
        't'
    } else {
        'f'
    }));
    lemma_rt_bool(t.checked, seq!['}'] + rest);
    assert(parse_checked_field(r3.skip(1)) == Some((t.checked, seq!['}'] + rest)));
    lemma_skip_ws_noop(seq!['}'] + rest);
    assert((seq!['}'] + rest)[0] == '}');
    assert((seq!['}'] + rest).skip(1) =~= rest);
}

/// The tail of an encoded task array reads back as the tasks it encoded.
#[verifier::rlimit(60)]
pub proof fn lemma_rt_tasks_tail(ts: Seq<TaskView>, rest: Seq<char>)
    ensures
        parse_tasks_rest(encode_tasks_tail(ts) + rest) == Some((ts, rest)),
    decreases ts.len(),
{
    let s = encode_tasks_tail(ts) + rest;
    lemma_skip_ws_noop(s);
    if ts.len() == 0 {
        assert(s =~= seq![']'] + rest);
        assert(s[0] == ']');
        assert(s.skip(1) =~= rest);
        assert(Seq::<TaskView>::empty() =~= ts);
    } else {
        assert(s[0] == ',');
        assert(s.skip(1) =~= encode_task(ts[0]) + (encode_tasks_tail(ts.skip(1)) + rest));
        lemma_rt_task(ts[0], encode_tasks_tail(ts.skip(1)) + rest);
        lemma_rt_tasks_tail(ts.skip(1), rest);
        assert(seq![ts[0]] + ts.skip(1) =~= ts);
    }
}

/// An encoded task array reads back as itself.
#[verifier::rlimit(60)]
pub proof fn lemma_rt_tasks(ts: Seq<TaskView>, rest: Seq<char>)
    ensures
        parse_tasks(encode_tasks(ts) + rest) == Some((ts, rest)),
{
    let s = encode_tasks(ts) + rest;
    lemma_skip_ws_noop(s);
    assert(s[0] == '[');
    if ts.len() == 0 {
        assert(s =~= seq!['[', ']'] + rest);
        assert(s.skip(1) =~= seq![']'] + rest);
        lemma_skip_ws_noop(s.skip(1));
        assert(s.skip(1)[0] == ']');
        assert(s.skip(1).skip(1) =~= rest);
        assert(Seq::<TaskView>::empty() =~= ts);
    } else {
        assert(s.skip(1) =~= encode_task(ts[0]) + (encode_tasks_tail(ts.skip(1)) + rest));
        lemma_skip_ws_noop(s.skip(1));
        assert(s.skip(1)[0] == '{');
        lemma_rt_task(ts[0], encode_tasks_tail(ts.skip(1)) + rest);
        lemma_rt_tasks_tail(ts.skip(1), rest);
        assert(seq![ts[0]] + ts.skip(1) =~= ts);
    }
}

/// An encoded list member reads back as itself.
pub proof fn lemma_rt_entry(l: ListView, rest: Seq<char>)
    ensures
        parse_entry(encode_entry(l) + rest) == Some((l, rest)),
{
    let s = encode_entry(l) + rest;
    lemma_skip_ws_noop(s);
    assert(s =~= encode_string(l.name) + (seq![':'] + (encode_tasks(l.tasks) + rest)));
    lemma_rt_string(l.name, seq![':'] + (encode_tasks(l.tasks) + rest));
    let s1 = seq![':'] + (encode_tasks(l.tasks) + rest);
    lemma_skip_ws_noop(s1);
    assert(s1[0] == ':');
    assert(s1.skip(1) =~= encode_tasks(l.tasks) + rest);
    lemma_rt_tasks(l.tasks, rest);
    assert(ListView { name: l.name, tasks: l.tasks } =~~= l);
}

/// The tail of an encoded store object reads back as the lists it encoded.
#[verifier::rlimit(60)]
pub proof fn lemma_rt_entries_tail(sv: StoreView, rest: Seq<char>)
    ensures
        parse_entries_rest(encode_entries_tail(sv) + rest) == Some((sv, rest)),
    decreases sv.len(),
{
    let s = encode_entries_tail(sv) + rest;
    lemma_skip_ws_noop(s);
    if sv.len() == 0 {
        assert(s =~= seq!['}'] + rest);
        assert(s[0] == '}');
        assert(s.skip(1) =~= rest);
        assert(Seq::<ListView>::empty() =~= sv);
    } else {
        assert(s[0] == ',');
        assert(s.skip(1) =~= encode_entry(sv[0]) + (encode_entries_tail(sv.skip(1)) + rest));
        lemma_rt_entry(sv[0], encode_entries_tail(sv.skip(1)) + rest);
        lemma_rt_entries_tail(sv.skip(1), rest);
        assert(seq![sv[0]] + sv.skip(1) =~= sv);
    }
}

/// An encoded store object reads back as itself.
#[verifier::rlimit(100)]
pub proof fn lemma_rt_store_raw(sv: StoreView, rest: Seq<char>)
    ensures
        parse_store_raw(encode_store(sv) + rest) == Some((sv, rest)),
{
    let s = encode_store(sv) + rest;
    lemma_skip_ws_noop(s);
    assert(s[0] == '{');
    if sv.len() == 0 {
        assert(s =~= seq!['{', '}'] + rest);
        assert(s.skip(1) =~= seq!['}'] + rest);
        lemma_skip_ws_noop(s.skip(1));
        assert(s.skip(1)[0] == '}');
        assert(s.skip(1).skip(1) =~= rest);
        assert(Seq::<ListView>::empty() =~= sv);
    } else {
        assert(s.skip(1) =~= encode_entry(sv[0]) + (encode_entries_tail(sv.skip(1)) + rest));
        lemma_skip_ws_noop(s.skip(1));
        assert(s.skip(1)[0] == '"');
        lemma_rt_entry(sv[0], encode_entries_tail(sv.skip(1)) + rest);
        lemma_rt_entries_tail(sv.skip(1), rest);
        assert(seq![sv[0]] + sv.skip(1) =~= sv);
    }
}

/// Saving a well-formed store and loading it back yields that store,
/// unchanged in every list and every task: the persisted form round-trips.
pub proof fn lemma_store_roundtrip(sv: StoreView)
    requires
        store_wf(sv),
    ensures
        parse_store(encode_store(sv)) == Some(sv),
{
    lemma_rt_store_raw(sv, Seq::empty());
    assert(encode_store(sv) + Seq::<char>::empty() =~= encode_store(sv));
    assert(skip_ws(Seq::<char>::empty()).len() == 0);
}

} // verus!
