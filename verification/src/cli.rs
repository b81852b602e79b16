use vstd::prelude::*;
use vstd::string::StringExecFns;

use crate::codec::is_ws;
use crate::codec::skip_ws;
use crate::persist::str_chars;
use crate::persist::string_from_chars;
use crate::store::str_eq;

verus! {

/// One parsed command of the command line, with its task-name and
/// list-name arguments where the command takes them.
#[derive(Debug)]
pub enum Subcommands {
    Add(Option<String>, Option<String>),
    Remove(Option<String>, Option<String>),
    Check(Option<String>, Option<String>),
    Tasks(Option<String>),
    AddList(Option<String>),
    RemoveList(Option<String>),
    Lists,
}

/// One parsed invocation: the subcommand the user chose, if any.
#[derive(Debug)]
pub struct Config {
    pub subcommand: Option<Subcommands>,
}

/// The subcommand a command word names, carrying the task and list
/// arguments: the decision at the heart of argument parsing.
pub fn subcommand_for(name: &str, task: Option<String>, list: Option<String>) -> (r: Option<
    Subcommands,
>)
    ensures
        name@ == "add"@ ==> (r matches Some(Subcommands::Add(t, l)) && t == task && l == list),
        name@ == "remove"@ ==> (r matches Some(Subcommands::Remove(t, l)) && t == task && l
            == list),
        name@ == "check"@ ==> (r matches Some(Subcommands::Check(t, l)) && t == task && l == list),
        name@ == "tasks"@ ==> (r matches Some(Subcommands::Tasks(l)) && l == list),
        name@ == "add-list"@ ==> (r matches Some(Subcommands::AddList(l)) && l == list),
        name@ == "remove-list"@ ==> (r matches Some(Subcommands::RemoveList(l)) && l == list),
        name@ == "lists"@ ==> r matches Some(Subcommands::Lists),
        name@ != "add"@ && name@ != "remove"@ && name@ != "check"@ && name@ != "tasks"@ && name@
            != "add-list"@ && name@ != "remove-list"@ && name@ != "lists"@ ==> r is None,
{
    proof {
        reveal_strlit("add");
        reveal_strlit("remove");
        reveal_strlit("check");
        reveal_strlit("tasks");
        reveal_strlit("add-list");
        reveal_strlit("remove-list");
        reveal_strlit("lists");
        assert("add"@.len() == 3 && "remove"@.len() == 6 && "check"@.len() == 5);
        assert("tasks"@.len() == 5 && "add-list"@.len() == 8 && "remove-list"@.len() == 11);
        assert("lists"@.len() == 5);
        assert("check"@[0] == 'c' && "tasks"@[0] == 't' && "lists"@[0] == 'l');
        assert("check"@ != "tasks"@ && "check"@ != "lists"@ && "tasks"@ != "lists"@);
    }
    if str_eq(name, "add") {
        Some(Subcommands::Add(task, list))
    } else if str_eq(name, "remove") {
        Some(Subcommands::Remove(task, list))
    } else if str_eq(name, "check") {
        Some(Subcommands::Check(task, list))
    } else if str_eq(name, "tasks") {
        Some(Subcommands::Tasks(list))
    } else if str_eq(name, "add-list") {
        Some(Subcommands::AddList(list))
    } else if str_eq(name, "remove-list") {
        Some(Subcommands::RemoveList(list))
    } else if str_eq(name, "lists") {
        Some(Subcommands::Lists)
    } else {
        None
    }
}

/// Is the character insignificant whitespace, as one test?
fn ws_char(c: char) -> (r: bool)
    ensures
        r == is_ws(c),
{
    c == ' ' || c == '\n' || c == '\t' || c == '\r'
}

/// The text with its trailing whitespace dropped.
pub open spec fn drop_trailing_ws(s: Seq<char>) -> Seq<char>
    decreases s.len(),
{
    if s.len() > 0 && is_ws(s.last()) {
        drop_trailing_ws(s.drop_last())
    } else {
        s
    }
}

/// Is the answer a yes? Affirmative exactly when the trimmed input is the
/// letter y, in either case; anything else, the empty answer included, is a
/// no.
pub open spec fn affirmative(s: Seq<char>) -> bool {
    let t = drop_trailing_ws(skip_ws(s));
    t == seq!['y'] || t == seq!['Y']
}

/// Decides one line of confirmation input: the rule of the yes/no prompt.
pub fn is_affirmative(input: &str) -> (r: bool)
    ensures
        r == affirmative(input@),
{
    let v = str_chars(input);
    let start = leading_ws_end(&v);
    let ghost s1 = skip_ws(v@);
    let mut j = v.len();
    proof {
        assert(v@.skip(start as int).take(j - start) =~= s1);
    }
    while j > start && ws_char(v[j - 1])
        invariant
            start <= j <= v@.len(),
            s1 == skip_ws(v@),
            v@.skip(start as int) == s1,
            drop_trailing_ws(s1) == drop_trailing_ws(s1.take(j - start)),
        decreases j,
    {
        proof {
            let t = s1.take(j - start);
            assert(t.last() == v@[j - 1]);
            assert(t.drop_last() =~= s1.take(j - 1 - start));
        }
        j -= 1;
    }
    proof {
        let t = s1.take(j - start);
        if t.len() > 0 {
            assert(t.last() == v@[j - 1]);
        }
        assert(drop_trailing_ws(t) == t);
    }
    if j > start && j - 1 == start {
        let c = v[start];
        proof {
            assert(s1.take(1)[0] == v@[start as int]);
            if c == 'y' {
                assert(s1.take(1) =~= seq!['y']);
            }
            if c == 'Y' {
                assert(s1.take(1) =~= seq!['Y']);
            }
            if c != 'y' && c != 'Y' {
                assert(s1.take(1) != seq!['y'] && s1.take(1) != seq!['Y']);
            }
        }
        c == 'y' || c == 'Y'
    } else {
        proof {
            let t = s1.take(j - start);
            assert(t.len() != 1);
            assert(t != seq!['y'] && t != seq!['Y']);
        }
        false
    }
}

/// The position after the leading whitespace.
fn leading_ws_end(v: &Vec<char>) -> (j: usize)
    ensures
        j <= v@.len(),
        v@.skip(j as int) == skip_ws(v@),
    decreases v@.len(),
{
    let mut i: usize = 0;
    proof {
        assert(v@.skip(0) =~= v@);
    }
    while i < v.len() && ws_char(v[i])
        invariant
            i <= v@.len(),
            skip_ws(v@.skip(i as int)) == skip_ws(v@),
        decreases v@.len() - i,
    {
        proof {
            assert(v@.skip(i as int)[0] == v@[i as int]);
            assert(v@.skip(i as int).skip(1) =~= v@.skip(i as int + 1));
        }
        i += 1;
    }
    proof {
        if i < v.len() {
            assert(v@.skip(i as int)[0] == v@[i as int]);
        } else {
            assert(v@.skip(i as int) =~= Seq::<char>::empty());
        }
    }
    i
}

/// Does a list-and-task separator stand at position `i`?
pub open spec fn sep_at(s: Seq<char>, i: int) -> bool {
    0 <= i && i + 2 <= s.len() && s[i] == ':' && s[i + 1] == ' '
}

/// Does the label hold a separator at all?
pub open spec fn has_sep(s: Seq<char>) -> bool {
    exists|i: int| sep_at(s, i)
}

/// Is `i` the first separator position?
pub open spec fn is_first_sep(s: Seq<char>, i: int) -> bool {
    sep_at(s, i) && forall|j: int| 0 <= j < i ==> !sep_at(s, j)
}

/// The first separator position, under `has_sep`.
pub open spec fn sep_index(s: Seq<char>) -> int {
    choose|i: int| is_first_sep(s, i)
}

/// The label up to its first separator; the whole label where none occurs.
pub open spec fn first_segment(s: Seq<char>) -> Seq<char> {
    if has_sep(s) {
        s.take(sep_index(s))
    } else {
        s
    }
}

/// The label after its first separator, under `has_sep`.
pub open spec fn rest_after_sep(s: Seq<char>) -> Seq<char> {
    s.skip(sep_index(s) + 2)
}

/// What one selected label stands for, as a pair of list name and task
/// name. Under the catch-all list every label carries its own list before
/// the first separator and the task's first segment after it; under a named
/// list the label's first segment is the task and the list is the named one.
pub open spec fn label_pair(all: bool, list: Seq<char>, label: Seq<char>) -> (Seq<char>, Seq<
    char,
>) {
    if all {
        (first_segment(label), first_segment(rest_after_sep(label)))
    } else {
        (list, first_segment(label))
    }
}

/// A position that is first to hold a separator is the first one.
proof fn lemma_first_sep_unique(s: Seq<char>, i: int)
    requires
        is_first_sep(s, i),
    ensures
        has_sep(s),
        sep_index(s) == i,
{
    assert(has_sep(s));
    assert(is_first_sep(s, sep_index(s)));
    let j = sep_index(s);
    if i < j {
        assert(!sep_at(s, i));
    }
    if j < i {
        assert(!sep_at(s, j));
    }
}

/// The first label segment from `start` on, and the position after the
/// separator that ended it, where one did.
fn first_segment_from(v: &Vec<char>, start: usize) -> (r: (Vec<char>, Option<usize>))
    requires
        start <= v@.len(),
    ensures
        ({
            let s = v@.skip(start as int);
            &&& r.0@ == first_segment(s)
            &&& (has_sep(s) <==> r.1 is Some)
            &&& (r.1 matches Some(n) ==> start < n <= v@.len() && v@.skip(n as int)
                == rest_after_sep(s))
        }),
{
    let ghost s = v@.skip(start as int);
    let n = v.len();
    let mut acc: Vec<char> = Vec::new();
    let mut i = start;
    proof {
        assert(acc@ =~= s.take(0));
    }
    while i < n
        invariant
            start <= i <= n,
            n == v@.len(),
            s == v@.skip(start as int),
            acc@ == s.take(i - start),
            forall|j: int| 0 <= j < i - start ==> !sep_at(s, j),
        decreases n - i,
    {
        let c = v[i];
        proof {
            assert(s[i - start] == v@[i as int]);
        }
        if c == ':' && i + 1 < n && v[i + 1] == ' ' {
            proof {
                assert(s[i - start + 1] == v@[i as int + 1]);
                assert(sep_at(s, i - start));
                lemma_first_sep_unique(s, i - start);
                assert(v@.skip(i as int + 2) =~= rest_after_sep(s));
            }
            return (acc, Some(i + 2));
        }
        proof {
            if sep_at(s, i - start) {
                assert(s[i - start + 1] == v@[i as int + 1]);
            }
            assert(acc@.push(v@[i as int]) =~= s.take(i - start + 1));
        }
        acc.push(c);
        i += 1;
    }
    proof {
        if has_sep(s) {
            let w = choose|w: int| sep_at(s, w);
            assert(!sep_at(s, w));
        }
        assert(acc@ =~= s);
    }
    (acc, None)
}

/// The label format of the interactive picker: the list, a colon and a
/// space, the task name.
pub fn fzf_label(list: &str, task: &str) -> (r: String)
    ensures
        r@ == list@ + seq![':', ' '] + task@,
{
    let mut out = list.to_owned();
    out.append(": ");
    out.append(task);
    proof {
        reveal_strlit(": ");
        assert(": "@ =~= seq![':', ' ']);
        assert(out@ =~= list@ + seq![':', ' '] + task@);
    }
    out
}

/// What the picker's selected labels stand for: the list and task name each
/// one names, under the list the picking started from. The catch-all list
/// is named "All"; under it every label must carry a separator, as labels
/// built by `fzf_label` do.
pub fn parse_with_fzf(list: &str, selected: &Vec<String>) -> (r: Vec<(String, String)>)
    requires
        list@ == "All"@ ==> forall|i: int|
            0 <= i < selected@.len() ==> has_sep(#[trigger] selected.deep_view()[i]),
    ensures
        r@.len() == selected@.len(),
        forall|i: int|
            0 <= i < r@.len() ==> (#[trigger] r@[i]).0@ == label_pair(
                list@ == "All"@,
                list@,
                selected.deep_view()[i],
            ).0 && r@[i].1@ == label_pair(list@ == "All"@, list@, selected.deep_view()[i]).1,
{
    let all = str_eq(list, "All");
    let mut out: Vec<(String, String)> = Vec::new();
    let n = selected.len();
    let mut i: usize = 0;
    while i < n
        invariant
            i <= n,
            n == selected@.len(),
            all == (list@ == "All"@),
            out@.len() == i,
            list@ == "All"@ ==> forall|k: int|
                0 <= k < selected@.len() ==> has_sep(#[trigger] selected.deep_view()[k]),
            forall|k: int|
                0 <= k < i as int ==> (#[trigger] out@[k]).0@ == label_pair(
                    list@ == "All"@,
                    list@,
                    selected.deep_view()[k],
                ).0 && out@[k].1@ == label_pair(list@ == "All"@, list@, selected.deep_view()[k]).1,
        decreases n - i,
    {
        let chars = str_chars(selected[i].as_str());
        proof {
            assert(chars@ == selected.deep_view()[i as int]);
        }
        if all {
            proof {
                assert(has_sep(selected.deep_view()[i as int]));
            }
            let (seg1, rest) = first_segment_from(&chars, 0);
            proof {
                assert(chars@.skip(0) =~= chars@);
            }
            let rest_pos = match rest {
                Some(p) => p,
                None => {
                    // the label carries a separator, by this function's contract
                    proof {
                        assert(false);
                    }
                    0
                },
            };
            let (seg2, _) = first_segment_from(&chars, rest_pos);
            let lname = string_from_chars(&seg1);
            let tname = string_from_chars(&seg2);
            out.push((lname, tname));
            proof {
                assert(out@[i as int].0@ == label_pair(
                    list@ == "All"@,
                    list@,
                    selected.deep_view()[i as int],
                ).0);
                assert(out@[i as int].1@ == label_pair(
                    list@ == "All"@,
                    list@,
                    selected.deep_view()[i as int],
                ).1);
            }
        } else {
            let (seg1, _) = first_segment_from(&chars, 0);
            proof {
                assert(chars@.skip(0) =~= chars@);
            }
            let tname = string_from_chars(&seg1);
            out.push((list.to_owned(), tname));
            proof {
                assert(out@[i as int].0@ == label_pair(
                    list@ == "All"@,
                    list@,
                    selected.deep_view()[i as int],
                ).0);
                assert(out@[i as int].1@ == label_pair(
                    list@ == "All"@,
                    list@,
                    selected.deep_view()[i as int],
                ).1);
            }
        }
        i += 1;
    }
    out
}

} // verus!
