use vstd::prelude::*;
use vstd::string::StrSliceExecFns;
use vstd::string::StringExecFns;

use crate::codec::checked_key;
use crate::codec::code_of;
use crate::codec::encode_bool;
use crate::codec::encode_char;
use crate::codec::encode_entries_tail;
use crate::codec::encode_entry;
use crate::codec::encode_store;
use crate::codec::encode_str_body;
use crate::codec::encode_string;
use crate::codec::encode_task;
use crate::codec::encode_tasks;
use crate::codec::encode_tasks_tail;
use crate::codec::char_from_code;
use crate::codec::hex_char;
use crate::codec::hex_val;
use crate::codec::is_hex;
use crate::codec::lemma_char_injective;
use crate::codec::name_key;
use crate::codec::parse_bool;
use crate::codec::parse_checked_field;
use crate::codec::parse_name_field;
use crate::codec::parse_entries_rest;
use crate::codec::parse_entry;
use crate::codec::parse_exact;
use crate::codec::parse_store;
use crate::codec::parse_store_raw;
use crate::codec::parse_str_body;
use crate::codec::parse_string;
use crate::codec::parse_task;
use crate::codec::parse_tasks;
use crate::codec::parse_tasks_rest;
use crate::codec::skip_ws;
use crate::codec::unescaped;
use crate::codec::valid_scalar;
use crate::errors::StorageError;
use crate::codec::lemma_parse_entry_shrinks;
use crate::codec::lemma_parse_task_shrinks;
use crate::model::ListView;
use crate::model::list_wf;
use crate::model::store_wf;
use crate::model::tasks_wf;
use crate::store::str_eq;
use crate::task::TaskView;
use crate::store::Store;
use crate::store::TaskList;
use crate::task::Task;

verus! {

/// Relies on String::push: it appends exactly the given character.
#[verifier::external_body]
pub(crate) fn push_char(out: &mut String, c: char)
    ensures
        final(out)@ == old(out)@.push(c),
{
    out.push(c);
}

/// The lower-case hexadecimal digit of a value below sixteen.
pub(crate) fn hex_digit(d: u8) -> (r: char)
    requires
        d < 16,
    ensures
        r == hex_char(d as int),
{
    if d == 0 {
        '0'
    } else if d == 1 {
        '1'
    } else if d == 2 {
        '2'
    } else if d == 3 {
        '3'
    } else if d == 4 {
        '4'
    } else if d == 5 {
        '5'
    } else if d == 6 {
        '6'
    } else if d == 7 {
        '7'
    } else if d == 8 {
        '8'
    } else if d == 9 {
        '9'
    } else if d == 10 {
        'a'
    } else if d == 11 {
        'b'
    } else if d == 12 {
        'c'
    } else if d == 13 {
        'd'
    } else if d == 14 {
        'e'
    } else {
        'f'
    }
}

/// Writes one character of a string, escaped as the format asks.
fn emit_char(out: &mut String, c: char)
    ensures
        final(out)@ == old(out)@ + encode_char(c),
{
    if c == '"' {
        out.append("\\\"");
        proof {
            reveal_strlit("\\\"");
            assert("\\\""@ =~= seq!['\\', '"']);
            assert(out@ =~= old(out)@ + encode_char(c));
        }
    } else if c == '\\' {
        out.append("\\\\");
        proof {
            reveal_strlit("\\\\");
            assert("\\\\"@ =~= seq!['\\', '\\']);
            assert(out@ =~= old(out)@ + encode_char(c));
        }
    } else {
        let n = c as u32;
        if n < 32 {
            out.append("\\u00");
            let d1 = (n / 16) as u8;
            let d2 = (n % 16) as u8;
            let h1 = hex_digit(d1);
            push_char(out, h1);
            let h2 = hex_digit(d2);
            push_char(out, h2);
            proof {
                reveal_strlit("\\u00");
                assert("\\u00"@ =~= seq!['\\', 'u', '0', '0']);
                assert(d1 as int == code_of(c) / 16);
                assert(d2 as int == code_of(c) % 16);
                assert(out@ =~= old(out)@ + encode_char(c));
            }
        } else {
            push_char(out, c);
            proof {
                assert(out@ =~= old(out)@ + encode_char(c));
            }
        }
    }
}

/// Writes a string's characters from position `k` on, escaped.
fn emit_str_body(out: &mut String, s: &str, k: usize, n: usize)
    requires
        n as int == s@.len(),
        k <= n,
    ensures
        final(out)@ == old(out)@ + encode_str_body(s@.skip(k as int)),
    decreases n - k,
{
    if k < n {
        let c = s.get_char(k);
        emit_char(out, c);
        emit_str_body(out, s, k + 1, n);
        proof {
            assert(s@.skip(k as int)[0] == s@[k as int]);
            assert(s@.skip(k as int).skip(1) =~= s@.skip(k as int + 1));
            assert(out@ =~= old(out)@ + encode_str_body(s@.skip(k as int)));
        }
    } else {
        proof {
            assert(s@.skip(k as int) =~= Seq::<char>::empty());
            assert(out@ =~= old(out)@ + encode_str_body(s@.skip(k as int)));
        }
    }
}

/// Writes a quoted, escaped string.
fn emit_string(out: &mut String, s: &str)
    ensures
        final(out)@ == old(out)@ + encode_string(s@),
{
    let n = s.unicode_len();
    out.append("\"");
    emit_str_body(out, s, 0, n);
    out.append("\"");
    proof {
        reveal_strlit("\"");
        assert("\""@ =~= seq!['"']);
        assert(s@.skip(0) =~= s@);
        assert(out@ =~= old(out)@ + encode_string(s@));
    }
}

/// Writes one task object.
fn emit_task(out: &mut String, t: &Task)
    ensures
        final(out)@ == old(out)@ + encode_task(t@),
{
    out.append("{\"name\":");
    emit_string(out, t.name.as_str());
    out.append(",\"checked\":");
    if t.checked {
        out.append("true");
    } else {
        out.append("false");
    }
    out.append("}");
    proof {
        reveal_strlit("{\"name\":");
        reveal_strlit(",\"checked\":");
        reveal_strlit("true");
        reveal_strlit("false");
        reveal_strlit("}");
        assert("{\"name\":"@ =~= seq!['{'] + name_key() + seq![':']);
        assert(",\"checked\":"@ =~= seq![','] + checked_key() + seq![':']);
        assert("true"@ =~= encode_bool(true));
        assert("false"@ =~= encode_bool(false));
        assert("}"@ =~= seq!['}']);
        assert(out@ =~= old(out)@ + encode_task(t@));
    }
}

/// Writes the tasks from position `k` on, each behind a comma, and the
/// closing bracket.
fn emit_tasks_tail(out: &mut String, ts: &Vec<Task>, k: usize)
    requires
        1 <= k <= ts@.len(),
    ensures
        final(out)@ == old(out)@ + encode_tasks_tail(ts.deep_view().skip(k as int)),
    decreases ts@.len() - k,
{
    if k < ts.len() {
        out.append(",");
        emit_task(out, &ts[k]);
        emit_tasks_tail(out, ts, k + 1);
        proof {
            reveal_strlit(",");
            assert(","@ =~= seq![',']);
            assert(ts.deep_view().skip(k as int)[0] == ts.deep_view()[k as int]);
            assert(ts.deep_view().skip(k as int).skip(1) =~= ts.deep_view().skip(k as int + 1));
            assert(out@ =~= old(out)@ + encode_tasks_tail(ts.deep_view().skip(k as int)));
        }
    } else {
        out.append("]");
        proof {
            reveal_strlit("]");
            assert("]"@ =~= seq![']']);
            assert(ts.deep_view().skip(k as int) =~= Seq::<crate::task::TaskView>::empty());
            assert(out@ =~= old(out)@ + encode_tasks_tail(ts.deep_view().skip(k as int)));
        }
    }
}

/// Writes a whole task array.
fn emit_tasks(out: &mut String, ts: &Vec<Task>)
    ensures
        final(out)@ == old(out)@ + encode_tasks(ts.deep_view()),
{
    if ts.len() == 0 {
        out.append("[]");
        proof {
            reveal_strlit("[]");
            assert("[]"@ =~= seq!['[', ']']);
            assert(out@ =~= old(out)@ + encode_tasks(ts.deep_view()));
        }
    } else {
        out.append("[");
        emit_task(out, &ts[0]);
        emit_tasks_tail(out, ts, 1);
        proof {
            reveal_strlit("[");
            assert("["@ =~= seq!['[']);
            assert(ts.deep_view()[0] == ts@[0]@);
            assert(out@ =~= old(out)@ + encode_tasks(ts.deep_view()));
        }
    }
}

/// Writes one list member: its name, a colon, its tasks.
fn emit_entry(out: &mut String, l: &TaskList)
    ensures
        final(out)@ == old(out)@ + encode_entry(l@),
{
    emit_string(out, l.name.as_str());
    out.append(":");
    emit_tasks(out, &l.tasks);
    proof {
        reveal_strlit(":");
        assert(":"@ =~= seq![':']);
        assert(out@ =~= old(out)@ + encode_entry(l@));
    }
}

/// Writes the lists from position `k` on, each behind a comma, and the
/// closing brace.
fn emit_entries_tail(out: &mut String, lists: &Vec<TaskList>, k: usize)
    requires
        1 <= k <= lists@.len(),
    ensures
        final(out)@ == old(out)@ + encode_entries_tail(lists.deep_view().skip(k as int)),
    decreases lists@.len() - k,
{
    if k < lists.len() {
        out.append(",");
        emit_entry(out, &lists[k]);
        emit_entries_tail(out, lists, k + 1);
        proof {
            reveal_strlit(",");
            assert(","@ =~= seq![',']);
            assert(lists.deep_view().skip(k as int)[0] == lists.deep_view()[k as int]);
            assert(lists.deep_view().skip(k as int).skip(1) =~= lists.deep_view().skip(
                k as int + 1,
            ));
            assert(out@ =~= old(out)@ + encode_entries_tail(lists.deep_view().skip(k as int)));
        }
    } else {
        out.append("}");
        proof {
            reveal_strlit("}");
            assert("}"@ =~= seq!['}']);
            assert(lists.deep_view().skip(k as int) =~= Seq::<crate::model::ListView>::empty());
            assert(out@ =~= old(out)@ + encode_entries_tail(lists.deep_view().skip(k as int)));
        }
    }
}

/// The store, written out whole as one object in its enumeration order:
/// what `load_store` reads back.
pub fn save_store(store: &Store) -> (out: String)
    ensures
        out@ == encode_store(store@),
{
    let lists = store.entries();
    let mut out = String::new();
    if lists.len() == 0 {
        out.append("{}");
        proof {
            reveal_strlit("{}");
            assert("{}"@ =~= seq!['{', '}']);
            assert(out@ =~= encode_store(store@));
        }
    } else {
        out.append("{");
        emit_entry(&mut out, &lists[0]);
        emit_entries_tail(&mut out, lists, 1);
        proof {
            reveal_strlit("{");
            assert("{"@ =~= seq!['{']);
            assert(lists.deep_view()[0] == lists@[0]@);
            assert(out@ =~= encode_store(store@));
        }
    }
    out
}

/// Relies on char::from_u32: a character for every unicode scalar value,
/// nothing for surrogate code points and values beyond the last code point.
pub assume_specification[ char::from_u32 ](code: u32) -> (r: Option<char>)
    ensures
        r is Some <==> valid_scalar(code as int),
        r matches Some(c) ==> c as u32 == code,
;

/// The characters of a string, in order.
pub(crate) fn str_chars(s: &str) -> (r: Vec<char>)
    ensures
        r@ == s@,
{
    let n = s.unicode_len();
    let mut r: Vec<char> = Vec::new();
    let mut i: usize = 0;
    while i < n
        invariant
            n == s@.len(),
            i <= n,
            r@ == s@.take(i as int),
        decreases n - i,
    {
        let c = s.get_char(i);
        r.push(c);
        proof {
            assert(r@ =~= s@.take(i as int + 1));
        }
        i += 1;
    }
    proof {
        assert(s@.take(n as int) =~= s@);
    }
    r
}

/// A string over the given characters, in order.
pub(crate) fn string_from_chars(v: &Vec<char>) -> (s: String)
    ensures
        s@ == v@,
{
    let mut s = String::new();
    let mut i: usize = 0;
    while i < v.len()
        invariant
            i <= v@.len(),
            s@ == v@.take(i as int),
        decreases v@.len() - i,
    {
        push_char(&mut s, v[i]);
        proof {
            assert(s@ =~= v@.take(i as int + 1));
        }
        i += 1;
    }
    proof {
        assert(v@.take(v@.len() as int) =~= v@);
    }
    s
}

/// The position after the whitespace that starts at `i`.
fn skip_ws_exec(v: &Vec<char>, i: usize) -> (j: usize)
    requires
        i <= v@.len(),
    ensures
        i <= j <= v@.len(),
        v@.skip(j as int) == skip_ws(v@.skip(i as int)),
    decreases v@.len() - i,
{
    if i < v.len() {
        let c = v[i];
        proof {
            assert(v@.skip(i as int)[0] == v@[i as int]);
        }
        if c == ' ' || c == '\n' || c == '\t' || c == '\r' {
            proof {
                assert(v@.skip(i as int).skip(1) =~= v@.skip(i as int + 1));
            }
            return skip_ws_exec(v, i + 1);
        }
    } else {
        proof {
            assert(v@.skip(i as int) =~= Seq::<char>::empty());
        }
    }
    i
}

/// The value of a hexadecimal digit character, if it is one.
pub(crate) fn hex_value(c: char) -> (r: Option<u8>)
    ensures
        is_hex(c) ==> r == Some(hex_val(c) as u8),
        !is_hex(c) ==> r is None,
{
    let n = c as u32;
    if 48 <= n && n <= 57 {
        Some((n - 48) as u8)
    } else if 97 <= n && n <= 102 {
        Some((n - 87) as u8)
    } else if 65 <= n && n <= 70 {
        Some((n - 55) as u8)
    } else {
        None
    }
}

/// Reads a string body from position `i`, over its closing quote.
fn p_str_body(v: &Vec<char>, i: usize) -> (r: Option<(Vec<char>, usize)>)
    requires
        i <= v@.len(),
    ensures
        match r {
            Some(p) => p.1 <= v@.len() && parse_str_body(v@.skip(i as int)) == Some(
                (p.0@, v@.skip(p.1 as int)),
            ),
            None => parse_str_body(v@.skip(i as int)) is None,
        },
    decreases v@.len() - i,
{
    let ghost s = v@.skip(i as int);
    if i >= v.len() {
        proof {
            assert(s =~= Seq::<char>::empty());
        }
        return None;
    }
    let c = v[i];
    proof {
        assert(s[0] == v@[i as int]);
    }
    if c == '"' {
        let out: Vec<char> = Vec::new();
        proof {
            assert(s.skip(1) =~= v@.skip(i as int + 1));
            assert(out@ =~= Seq::<char>::empty());
        }
        return Some((out, i + 1));
    }
    if c == '\\' {
        if v.len() - i < 2 {
            proof {
                assert(s.len() < 2);
            }
            return None;
        }
        let e = v[i + 1];
        proof {
            assert(s[1] == v@[i as int + 1]);
        }
        if e == 'u' {
            if v.len() - i < 6 {
                proof {
                    assert(s.len() < 6);
                }
                return None;
            }
            proof {
                assert(s[2] == v@[i as int + 2]);
                assert(s[3] == v@[i as int + 3]);
                assert(s[4] == v@[i as int + 4]);
                assert(s[5] == v@[i as int + 5]);
            }
            let h0 = match hex_value(v[i + 2]) {
                Some(h) => h,
                None => {
                    return None;
                },
            };
            let h1 = match hex_value(v[i + 3]) {
                Some(h) => h,
                None => {
                    return None;
                },
            };
            let h2 = match hex_value(v[i + 4]) {
                Some(h) => h,
                None => {
                    return None;
                },
            };
            let h3 = match hex_value(v[i + 5]) {
                Some(h) => h,
                None => {
                    return None;
                },
            };
            let code: u32 = (h0 as u32) * 4096 + (h1 as u32) * 256 + (h2 as u32) * 16 + (h3 as u32);
            proof {
                assert(code as int == hex_val(s[2]) * 4096 + hex_val(s[3]) * 256 + hex_val(s[4])
                    * 16 + hex_val(s[5]));
            }
            let ch = match char::from_u32(code) {
                Some(ch) => ch,
                None => {
                    return None;
                },
            };
            proof {
                assert(code_of(ch) == code as int);
                assert(exists|cc: char| code_of(cc) == code as int);
                assert(code_of(char_from_code(code as int)) == code as int);
                lemma_char_injective(ch, char_from_code(code as int));
            }
            match p_str_body(v, i + 6) {
                Some((mut tail, j)) => {
                    tail.insert(0, ch);
                    proof {
                        assert(s.skip(6) =~= v@.skip(i as int + 6));
                        assert(tail@ =~= seq![char_from_code(code as int)] + tail@.skip(1));
                    }
                    Some((tail, j))
                },
                None => {
                    proof {
                        assert(s.skip(6) =~= v@.skip(i as int + 6));
                    }
                    None
                },
            }
        } else {
            let mc: Option<char> = if e == '"' {
                Some('"')
            } else if e == '\\' {
                Some('\\')
            } else if e == '/' {
                Some('/')
            } else if e == 'b' {
                Some('\u{8}')
            } else if e == 'f' {
                Some('\u{c}')
            } else if e == 'n' {
                Some('\n')
            } else if e == 'r' {
                Some('\r')
            } else if e == 't' {
                Some('\t')
            } else {
                None
            };
            proof {
                assert(mc == unescaped(s[1]));
            }
            match mc {
                None => None,
                Some(ch) => match p_str_body(v, i + 2) {
                    Some((mut tail, j)) => {
                        tail.insert(0, ch);
                        proof {
                            assert(s.skip(2) =~= v@.skip(i as int + 2));
                            assert(tail@ =~= seq![ch] + tail@.skip(1));
                        }
                        Some((tail, j))
                    },
                    None => {
                        proof {
                            assert(s.skip(2) =~= v@.skip(i as int + 2));
                        }
                        None
                    },
                },
            }
        }
    } else {
        match p_str_body(v, i + 1) {
            Some((mut tail, j)) => {
                tail.insert(0, c);
                proof {
                    assert(s.skip(1) =~= v@.skip(i as int + 1));
                    assert(tail@ =~= seq![c] + tail@.skip(1));
                }
                Some((tail, j))
            },
            None => {
                proof {
                    assert(s.skip(1) =~= v@.skip(i as int + 1));
                }
                None
            },
        }
    }
}

/// Reads a quoted string from position `i`.
fn p_string(v: &Vec<char>, i: usize) -> (r: Option<(Vec<char>, usize)>)
    requires
        i <= v@.len(),
    ensures
        match r {
            Some(p) => p.1 <= v@.len() && parse_string(v@.skip(i as int)) == Some(
                (p.0@, v@.skip(p.1 as int)),
            ),
            None => parse_string(v@.skip(i as int)) is None,
        },
{
    if i < v.len() {
        let c = v[i];
        proof {
            assert(v@.skip(i as int)[0] == v@[i as int]);
        }
        if c == '"' {
            proof {
                assert(v@.skip(i as int).skip(1) =~= v@.skip(i as int + 1));
            }
            return p_str_body(v, i + 1);
        }
    } else {
        proof {
            assert(v@.skip(i as int) =~= Seq::<char>::empty());
        }
    }
    None
}

/// Reads the key before a task's name from position `i`.
fn p_name_key(v: &Vec<char>, i: usize) -> (r: Option<usize>)
    requires
        i <= v@.len(),
    ensures
        match r {
            Some(j) => j <= v@.len() && parse_exact(v@.skip(i as int), name_key()) == Some(
                v@.skip(j as int),
            ),
            None => parse_exact(v@.skip(i as int), name_key()) is None,
        },
{
    let ghost s = v@.skip(i as int);
    if v.len() - i < 6 {
        proof {
            assert(s.len() < 6);
        }
        return None;
    }
    if v[i] == '"' && v[i + 1] == 'n' && v[i + 2] == 'a' && v[i + 3] == 'm' && v[i + 4] == 'e' && v[
        i + 5] == '"' {
        proof {
            assert(s.take(6) =~= name_key());
            assert(s.skip(6) =~= v@.skip(i as int + 6));
        }
        Some(i + 6)
    } else {
        proof {
            if parse_exact(s, name_key()) is Some {
                assert(s.take(6) == name_key());
                assert(s.take(6)[0] == s[0] && s.take(6)[1] == s[1] && s.take(6)[2] == s[2]
                    && s.take(6)[3] == s[3] && s.take(6)[4] == s[4] && s.take(6)[5] == s[5]);
                assert(false);
            }
        }
        None
    }
}

/// Reads the key before a task's checked flag from position `i`.
fn p_checked_key(v: &Vec<char>, i: usize) -> (r: Option<usize>)
    requires
        i <= v@.len(),
    ensures
        match r {
            Some(j) => j <= v@.len() && parse_exact(v@.skip(i as int), checked_key()) == Some(
                v@.skip(j as int),
            ),
            None => parse_exact(v@.skip(i as int), checked_key()) is None,
        },
{
    let ghost s = v@.skip(i as int);
    if v.len() - i < 9 {
        proof {
            assert(s.len() < 9);
        }
        return None;
    }
    if v[i] == '"' && v[i + 1] == 'c' && v[i + 2] == 'h' && v[i + 3] == 'e' && v[i + 4] == 'c' && v[
        i + 5] == 'k' && v[i + 6] == 'e' && v[i + 7] == 'd' && v[i + 8] == '"' {
        proof {
            assert(s.take(9) =~= checked_key());
            assert(s.skip(9) =~= v@.skip(i as int + 9));
        }
        Some(i + 9)
    } else {
        proof {
            if parse_exact(s, checked_key()) is Some {
                assert(s.take(9) == checked_key());
                assert(s.take(9)[0] == s[0] && s.take(9)[1] == s[1] && s.take(9)[2] == s[2]
                    && s.take(9)[3] == s[3] && s.take(9)[4] == s[4] && s.take(9)[5] == s[5]
                    && s.take(9)[6] == s[6] && s.take(9)[7] == s[7] && s.take(9)[8] == s[8]);
                assert(false);
            }
        }
        None
    }
}

/// Reads a boolean from position `i`.
fn p_bool(v: &Vec<char>, i: usize) -> (r: Option<(bool, usize)>)
    requires
        i <= v@.len(),
    ensures
        match r {
            Some(p) => p.1 <= v@.len() && parse_bool(v@.skip(i as int)) == Some(
                (p.0, v@.skip(p.1 as int)),
            ),
            None => parse_bool(v@.skip(i as int)) is None,
        },
{
    let ghost s = v@.skip(i as int);
    if v.len() - i >= 4 && v[i] == 't' && v[i + 1] == 'r' && v[i + 2] == 'u' && v[i + 3] == 'e' {
        proof {
            assert(s.take(4) =~= seq!['t', 'r', 'u', 'e']);
            assert(s.skip(4) =~= v@.skip(i as int + 4));
        }
        Some((true, i + 4))
    } else if v.len() - i >= 5 && v[i] == 'f' && v[i + 1] == 'a' && v[i + 2] == 'l' && v[i + 3]
        == 's' && v[i + 4] == 'e' {
        proof {
            assert(s.take(5) =~= seq!['f', 'a', 'l', 's', 'e']);
            assert(s.skip(5) =~= v@.skip(i as int + 5));
            if s.len() >= 4 && s.take(4) == seq!['t', 'r', 'u', 'e'] {
                assert(s.take(4)[0] == s[0]);
                assert(false);
            }
        }
        Some((false, i + 5))
    } else {
        proof {
            if s.len() >= 4 && s.take(4) == seq!['t', 'r', 'u', 'e'] {
                assert(s.take(4)[0] == s[0] && s.take(4)[1] == s[1] && s.take(4)[2] == s[2]
                    && s.take(4)[3] == s[3]);
                assert(false);
            }
            if s.len() >= 5 && s.take(5) == seq!['f', 'a', 'l', 's', 'e'] {
                assert(s.take(5)[0] == s[0] && s.take(5)[1] == s[1] && s.take(5)[2] == s[2]
                    && s.take(5)[3] == s[3] && s.take(5)[4] == s[4]);
                assert(false);
            }
        }
        None
    }
}

/// Reads the name member of a task object from position `i`.
fn p_name_field(v: &Vec<char>, i: usize) -> (r: Option<(Vec<char>, usize)>)
    requires
        i <= v@.len(),
    ensures
        match r {
            Some(p) => p.1 <= v@.len() && parse_name_field(v@.skip(i as int)) == Some(
                (p.0@, v@.skip(p.1 as int)),
            ),
            None => parse_name_field(v@.skip(i as int)) is None,
        },
{
    let j1 = skip_ws_exec(v, i);
    let j2 = match p_name_key(v, j1) {
        Some(j) => j,
        None => {
            return None;
        },
    };
    let j3 = skip_ws_exec(v, j2);
    if j3 >= v.len() {
        proof {
            assert(v@.skip(j3 as int) =~= Seq::<char>::empty());
        }
        return None;
    }
    proof {
        assert(v@.skip(j3 as int)[0] == v@[j3 as int]);
    }
    if v[j3] != ':' {
        return None;
    }
    proof {
        assert(v@.skip(j3 as int).skip(1) =~= v@.skip(j3 as int + 1));
    }
    let j4 = skip_ws_exec(v, j3 + 1);
    p_string(v, j4)
}

/// Reads the checked member of a task object from position `i`.
fn p_checked_field(v: &Vec<char>, i: usize) -> (r: Option<(bool, usize)>)
    requires
        i <= v@.len(),
    ensures
        match r {
            Some(p) => p.1 <= v@.len() && parse_checked_field(v@.skip(i as int)) == Some(
                (p.0, v@.skip(p.1 as int)),
            ),
            None => parse_checked_field(v@.skip(i as int)) is None,
        },
{
    let j1 = skip_ws_exec(v, i);
    let j2 = match p_checked_key(v, j1) {
        Some(j) => j,
        None => {
            return None;
        },
    };
    let j3 = skip_ws_exec(v, j2);
    if j3 >= v.len() {
        proof {
            assert(v@.skip(j3 as int) =~= Seq::<char>::empty());
        }
        return None;
    }
    proof {
        assert(v@.skip(j3 as int)[0] == v@[j3 as int]);
    }
    if v[j3] != ':' {
        return None;
    }
    proof {
        assert(v@.skip(j3 as int).skip(1) =~= v@.skip(j3 as int + 1));
    }
    let j4 = skip_ws_exec(v, j3 + 1);
    p_bool(v, j4)
}

/// Reads one task object from position `i`, its two members in either
/// order.
#[verifier::rlimit(60)]
fn p_task(v: &Vec<char>, i: usize) -> (r: Option<(Task, usize)>)
    requires
        i <= v@.len(),
    ensures
        match r {
            Some(p) => p.1 <= v@.len() && parse_task(v@.skip(i as int)) == Some(
                (p.0@, v@.skip(p.1 as int)),
            ),
            None => parse_task(v@.skip(i as int)) is None,
        },
{
    let j0 = skip_ws_exec(v, i);
    if j0 >= v.len() {
        proof {
            assert(v@.skip(j0 as int) =~= Seq::<char>::empty());
        }
        return None;
    }
    proof {
        assert(v@.skip(j0 as int)[0] == v@[j0 as int]);
    }
    if v[j0] != '{' {
        return None;
    }
    proof {
        assert(v@.skip(j0 as int).skip(1) =~= v@.skip(j0 as int + 1));
    }
    match p_name_field(v, j0 + 1) {
        Some((name_chars, r1)) => {
            let s5 = skip_ws_exec(v, r1);
            if s5 >= v.len() {
                proof {
                    assert(v@.skip(s5 as int) =~= Seq::<char>::empty());
                }
                return None;
            }
            proof {
                assert(v@.skip(s5 as int)[0] == v@[s5 as int]);
            }
            if v[s5] != ',' {
                return None;
            }
            proof {
                assert(v@.skip(s5 as int).skip(1) =~= v@.skip(s5 as int + 1));
            }
            match p_checked_field(v, s5 + 1) {
                Some((b, r2)) => {
                    let s10 = skip_ws_exec(v, r2);
                    if s10 >= v.len() {
                        proof {
                            assert(v@.skip(s10 as int) =~= Seq::<char>::empty());
                        }
                        return None;
                    }
                    proof {
                        assert(v@.skip(s10 as int)[0] == v@[s10 as int]);
                    }
                    if v[s10] != '}' {
                        return None;
                    }
                    proof {
                        assert(v@.skip(s10 as int).skip(1) =~= v@.skip(s10 as int + 1));
                    }
                    let name = string_from_chars(&name_chars);
                    Some((Task { name, checked: b }, s10 + 1))
                },
                None => None,
            }
        },
        None => match p_checked_field(v, j0 + 1) {
            Some((b, r1)) => {
                let s5 = skip_ws_exec(v, r1);
                if s5 >= v.len() {
                    proof {
                        assert(v@.skip(s5 as int) =~= Seq::<char>::empty());
                    }
                    return None;
                }
                proof {
                    assert(v@.skip(s5 as int)[0] == v@[s5 as int]);
                }
                if v[s5] != ',' {
                    return None;
                }
                proof {
                    assert(v@.skip(s5 as int).skip(1) =~= v@.skip(s5 as int + 1));
                }
                match p_name_field(v, s5 + 1) {
                    Some((name_chars, r2)) => {
                        let s10 = skip_ws_exec(v, r2);
                        if s10 >= v.len() {
                            proof {
                                assert(v@.skip(s10 as int) =~= Seq::<char>::empty());
                            }
                            return None;
                        }
                        proof {
                            assert(v@.skip(s10 as int)[0] == v@[s10 as int]);
                        }
                        if v[s10] != '}' {
                            return None;
                        }
                        proof {
                            assert(v@.skip(s10 as int).skip(1) =~= v@.skip(s10 as int + 1));
                        }
                        let name = string_from_chars(&name_chars);
                        Some((Task { name, checked: b }, s10 + 1))
                    },
                    None => None,
                }
            },
            None => None,
        },
    }
}

/// Reads a whole task array from position `i`.
#[verifier::rlimit(60)]
fn p_tasks(v: &Vec<char>, i: usize) -> (r: Option<(Vec<Task>, usize)>)
    requires
        i <= v@.len(),
    ensures
        match r {
            Some(p) => p.1 <= v@.len() && parse_tasks(v@.skip(i as int)) == Some(
                (p.0.deep_view(), v@.skip(p.1 as int)),
            ),
            None => parse_tasks(v@.skip(i as int)) is None,
        },
{
    let ghost whole = parse_tasks(v@.skip(i as int));
    let j0 = skip_ws_exec(v, i);
    if j0 >= v.len() {
        return None;
    }
    proof {
        assert(v@.skip(j0 as int)[0] == v@[j0 as int]);
    }
    if v[j0] != '[' {
        return None;
    }
    proof {
        assert(v@.skip(j0 as int).skip(1) =~= v@.skip(j0 as int + 1));
    }
    let j1 = skip_ws_exec(v, j0 + 1);
    if j1 < v.len() {
        proof {
            assert(v@.skip(j1 as int)[0] == v@[j1 as int]);
        }
        if v[j1] == ']' {
            let out: Vec<Task> = Vec::new();
            proof {
                assert(v@.skip(j1 as int).skip(1) =~= v@.skip(j1 as int + 1));
                assert(out.deep_view() =~= Seq::<TaskView>::empty());
            }
            return Some((out, j1 + 1));
        }
    } else {
        proof {
            assert(v@.skip(j1 as int) =~= Seq::<char>::empty());
        }
    }
    let (t0, first_end) = match p_task(v, j0 + 1) {
        Some(p) => p,
        None => {
            return None;
        },
    };
    let mut cur = first_end;
    let mut acc: Vec<Task> = Vec::new();
    acc.push(t0);
    proof {
        assert(acc.deep_view() =~= seq![t0@]);
    }
    loop
        invariant
            cur <= v@.len(),
            whole == parse_tasks(v@.skip(i as int)),
            ({
                match parse_tasks_rest(v@.skip(cur as int)) {
                    Some(q) => whole == Some((acc.deep_view() + q.0, q.1)),
                    None => whole is None,
                }
            }),
        decreases v@.len() - cur,
    {
        let j = skip_ws_exec(v, cur);
        if j >= v.len() {
            proof {
                assert(v@.skip(j as int) =~= Seq::<char>::empty());
            }
            return None;
        }
        proof {
            assert(v@.skip(j as int)[0] == v@[j as int]);
        }
        let c = v[j];
        if c == ']' {
            proof {
                assert(v@.skip(j as int).skip(1) =~= v@.skip(j as int + 1));
                assert(acc.deep_view() + Seq::<TaskView>::empty() =~= acc.deep_view());
            }
            return Some((acc, j + 1));
        }
        if c != ',' {
            return None;
        }
        proof {
            assert(v@.skip(j as int).skip(1) =~= v@.skip(j as int + 1));
        }
        let (t, nxt) = match p_task(v, j + 1) {
            Some(p) => p,
            None => {
                return None;
            },
        };
        proof {
            lemma_parse_task_shrinks(v@.skip(j as int + 1));
            assert(v@.skip(nxt as int).len() < v@.skip(j as int + 1).len());
        }
        let ghost prev = acc.deep_view();
        acc.push(t);
        proof {
            assert(acc.deep_view() =~= prev.push(t@));
            match parse_tasks_rest(v@.skip(nxt as int)) {
                Some(q) => {
                    assert(prev.push(t@) + q.0 =~= prev + (seq![t@] + q.0));
                },
                None => {},
            }
        }
        cur = nxt;
    }
}

/// Reads one list member from position `i`.
fn p_entry(v: &Vec<char>, i: usize) -> (r: Option<(TaskList, usize)>)
    requires
        i <= v@.len(),
    ensures
        match r {
            Some(p) => p.1 <= v@.len() && parse_entry(v@.skip(i as int)) == Some(
                (p.0@, v@.skip(p.1 as int)),
            ),
            None => parse_entry(v@.skip(i as int)) is None,
        },
{
    let j0 = skip_ws_exec(v, i);
    let (name_chars, j1) = match p_string(v, j0) {
        Some(p) => p,
        None => {
            return None;
        },
    };
    let j2 = skip_ws_exec(v, j1);
    if j2 >= v.len() {
        proof {
            assert(v@.skip(j2 as int) =~= Seq::<char>::empty());
        }
        return None;
    }
    proof {
        assert(v@.skip(j2 as int)[0] == v@[j2 as int]);
    }
    if v[j2] != ':' {
        return None;
    }
    proof {
        assert(v@.skip(j2 as int).skip(1) =~= v@.skip(j2 as int + 1));
    }
    let (tasks, j3) = match p_tasks(v, j2 + 1) {
        Some(p) => p,
        None => {
            return None;
        },
    };
    let name = string_from_chars(&name_chars);
    Some((TaskList { name, tasks }, j3))
}

/// Reads the store object from position `i`, leaving whatever follows.
#[verifier::rlimit(60)]
fn p_store_raw(v: &Vec<char>, i: usize) -> (r: Option<(Vec<TaskList>, usize)>)
    requires
        i <= v@.len(),
    ensures
        match r {
            Some(p) => p.1 <= v@.len() && parse_store_raw(v@.skip(i as int)) == Some(
                (p.0.deep_view(), v@.skip(p.1 as int)),
            ),
            None => parse_store_raw(v@.skip(i as int)) is None,
        },
{
    let ghost whole = parse_store_raw(v@.skip(i as int));
    let j0 = skip_ws_exec(v, i);
    if j0 >= v.len() {
        return None;
    }
    proof {
        assert(v@.skip(j0 as int)[0] == v@[j0 as int]);
    }
    if v[j0] != '{' {
        return None;
    }
    proof {
        assert(v@.skip(j0 as int).skip(1) =~= v@.skip(j0 as int + 1));
    }
    let j1 = skip_ws_exec(v, j0 + 1);
    if j1 < v.len() {
        proof {
            assert(v@.skip(j1 as int)[0] == v@[j1 as int]);
        }
        if v[j1] == '}' {
            let out: Vec<TaskList> = Vec::new();
            proof {
                assert(v@.skip(j1 as int).skip(1) =~= v@.skip(j1 as int + 1));
                assert(out.deep_view() =~= Seq::<ListView>::empty());
            }
            return Some((out, j1 + 1));
        }
    } else {
        proof {
            assert(v@.skip(j1 as int) =~= Seq::<char>::empty());
        }
    }
    let (e0, first_end) = match p_entry(v, j0 + 1) {
        Some(p) => p,
        None => {
            return None;
        },
    };
    let mut cur = first_end;
    let mut acc: Vec<TaskList> = Vec::new();
    acc.push(e0);
    proof {
        assert(acc.deep_view() =~= seq![e0@]);
    }
    loop
        invariant
            cur <= v@.len(),
            whole == parse_store_raw(v@.skip(i as int)),
            ({
                match parse_entries_rest(v@.skip(cur as int)) {
                    Some(q) => whole == Some((acc.deep_view() + q.0, q.1)),
                    None => whole is None,
                }
            }),
        decreases v@.len() - cur,
    {
        let j = skip_ws_exec(v, cur);
        if j >= v.len() {
            proof {
                assert(v@.skip(j as int) =~= Seq::<char>::empty());
            }
            return None;
        }
        proof {
            assert(v@.skip(j as int)[0] == v@[j as int]);
        }
        let c = v[j];
        if c == '}' {
            proof {
                assert(v@.skip(j as int).skip(1) =~= v@.skip(j as int + 1));
                assert(acc.deep_view() + Seq::<ListView>::empty() =~= acc.deep_view());
            }
            return Some((acc, j + 1));
        }
        if c != ',' {
            return None;
        }
        proof {
            assert(v@.skip(j as int).skip(1) =~= v@.skip(j as int + 1));
        }
        let (e, nxt) = match p_entry(v, j + 1) {
            Some(p) => p,
            None => {
                return None;
            },
        };
        proof {
            lemma_parse_entry_shrinks(v@.skip(j as int + 1));
            assert(v@.skip(nxt as int).len() < v@.skip(j as int + 1).len());
        }
        let ghost prev = acc.deep_view();
        acc.push(e);
        proof {
            assert(acc.deep_view() =~= prev.push(e@));
            match parse_entries_rest(v@.skip(nxt as int)) {
                Some(q) => {
                    assert(prev.push(e@) + q.0 =~= prev + (seq![e@] + q.0));
                },
                None => {},
            }
        }
        cur = nxt;
    }
}

/// Are the task names pairwise distinct and non-empty?
fn tasks_are_wf(tasks: &Vec<Task>) -> (r: bool)
    ensures
        r == tasks_wf(tasks.deep_view()),
{
    let ghost ts = tasks.deep_view();
    let n = tasks.len();
    let mut i: usize = 0;
    while i < n
        invariant
            i <= n,
            n == tasks@.len(),
            ts == tasks.deep_view(),
            forall|p: int| 0 <= p < i as int ==> #[trigger] ts[p].name.len() > 0,
            forall|p: int, q: int| 0 <= p < q < i as int ==> ts[p].name != ts[q].name,
        decreases n - i,
    {
        if tasks[i].name.as_str().is_empty() {
            proof {
                assert(ts[i as int].name.len() == 0);
            }
            return false;
        }
        let mut j: usize = 0;
        while j < i
            invariant
                j <= i,
                i < n,
                n == tasks@.len(),
                ts == tasks.deep_view(),
                forall|p: int| 0 <= p < i as int ==> #[trigger] ts[p].name.len() > 0,
                forall|p: int, q: int| 0 <= p < q < i as int ==> ts[p].name != ts[q].name,
                ts[i as int].name.len() > 0,
                forall|p: int| 0 <= p < j as int ==> #[trigger] ts[p].name != ts[i as int].name,
            decreases i - j,
        {
            if str_eq(tasks[j].name.as_str(), tasks[i].name.as_str()) {
                proof {
                    assert(ts[j as int].name == ts[i as int].name);
                }
                return false;
            }
            j += 1;
        }
        i += 1;
    }
    true
}

/// Is the parsed store well-formed: list names pairwise distinct and
/// non-empty, each list's tasks the same in themselves?
fn store_entries_wf(lists: &Vec<TaskList>) -> (r: bool)
    ensures
        r == store_wf(lists.deep_view()),
{
    let ghost sv = lists.deep_view();
    let n = lists.len();
    let mut i: usize = 0;
    while i < n
        invariant
            i <= n,
            n == lists@.len(),
            sv == lists.deep_view(),
            forall|p: int| 0 <= p < i as int ==> list_wf(#[trigger] sv[p]),
            forall|p: int, q: int| 0 <= p < q < i as int ==> sv[p].name != sv[q].name,
        decreases n - i,
    {
        if lists[i].name.as_str().is_empty() {
            proof {
                assert(sv[i as int].name.len() == 0);
                assert(!list_wf(sv[i as int]));
            }
            return false;
        }
        if !tasks_are_wf(&lists[i].tasks) {
            proof {
                assert(!list_wf(sv[i as int]));
            }
            return false;
        }
        let mut j: usize = 0;
        while j < i
            invariant
                j <= i,
                i < n,
                n == lists@.len(),
                sv == lists.deep_view(),
                forall|p: int| 0 <= p < i as int ==> list_wf(#[trigger] sv[p]),
                forall|p: int, q: int| 0 <= p < q < i as int ==> sv[p].name != sv[q].name,
                list_wf(sv[i as int]),
                forall|p: int| 0 <= p < j as int ==> #[trigger] sv[p].name != sv[i as int].name,
            decreases i - j,
        {
            if str_eq(lists[j].name.as_str(), lists[i].name.as_str()) {
                proof {
                    assert(sv[j as int].name == sv[i as int].name);
                }
                return false;
            }
            j += 1;
        }
        i += 1;
    }
    true
}

/// The store read back from persisted text: the store it holds where the
/// text is one well-formed store object, the error anywhere else.
pub fn load_store(text: &str) -> (r: Result<Store, StorageError>)
    ensures
        match r {
            Ok(s) => s.wf() && parse_store(text@) == Some(s@),
            Err(e) => parse_store(text@) is None && e == StorageError::Malformed,
        },
{
    let v = str_chars(text);
    proof {
        assert(v@.skip(0) =~= text@);
    }
    match p_store_raw(&v, 0) {
        None => Err(StorageError::Malformed),
        Some((lists, j)) => {
            let j2 = skip_ws_exec(&v, j);
            if j2 < v.len() {
                proof {
                    assert(skip_ws(v@.skip(j as int)).len() > 0);
                }
                Err(StorageError::Malformed)
            } else if !store_entries_wf(&lists) {
                Err(StorageError::Malformed)
            } else {
                proof {
                    assert(skip_ws(v@.skip(j as int)).len() == 0);
                }
                Ok(Store::from_entries(lists))
            }
        },
    }
}

} // verus!
