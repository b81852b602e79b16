use vstd::prelude::*;

use crate::codec::encode_store;
use crate::codec::lemma_store_roundtrip;
use crate::codec::parse_store;
use crate::model::StoreView;
use crate::model::candidate_names;
use crate::model::has_list;
use crate::model::has_task;
use crate::model::lemma_candidate_names_membership;
use crate::model::lemma_list_index_unique;
use crate::model::lemma_task_index_unique;
use crate::model::lemma_tasks_wf_push;
use crate::model::lemma_tasks_wf_remove;
use crate::model::lemma_tasks_wf_toggle;
use crate::model::lemma_wf_removed;
use crate::model::lemma_wf_update_tasks;
use crate::model::list_index;
use crate::model::store_wf;
use crate::model::store_with_task_added;
use crate::model::store_with_task_removed;
use crate::model::store_with_task_toggled;
use crate::model::task_index;
use crate::model::tasks_named;
use crate::model::tasks_of;
use crate::model::update_tasks_at;
use crate::task::TaskView;

verus! {

/// Tasks named `name` do not occur in a sequence that has no task of that
/// name.
proof fn lemma_tasks_named_absent(ts: Seq<TaskView>, name: Seq<char>)
    requires
        !has_task(ts, name),
    ensures
        tasks_named(ts, name).len() == 0,
    decreases ts.len(),
{
    if ts.len() > 0 {
        assert forall|i: int| 0 <= i < ts.drop_last().len() implies ts.drop_last()[i].name
            != name by {
            assert(ts.drop_last()[i] == ts[i]);
            if ts[i].name == name {
                assert(has_task(ts, name));
            }
        }
        lemma_tasks_named_absent(ts.drop_last(), name);
        if ts.last().name == name {
            assert(has_task(ts, name));
        }
    }
}

/// A just-added task stands in its list exactly once, and unchecked: the
/// outcome `add_task` promises, seen through `get_tasks`.
pub proof fn lemma_added_task_present_once(s: StoreView, task: Seq<char>, list: Seq<char>)
    requires
        store_wf(s),
        has_list(s, list),
        !has_task(tasks_of(s, list), task),
        task.len() > 0,
    ensures
        has_list(store_with_task_added(s, task, list), list),
        ({
            let named = tasks_named(tasks_of(store_with_task_added(s, task, list), list), task);
            named.len() == 1 && named[0] == TaskView { name: task, checked: false }
        }),
{
    let i = list_index(s, list);
    assert(0 <= i < s.len() && s[i].name == list);
    let ts = tasks_of(s, list);
    let fresh = TaskView { name: task, checked: false };
    let s2 = store_with_task_added(s, task, list);
    lemma_tasks_wf_push(ts, task);
    lemma_wf_update_tasks(s, i, ts.push(fresh));
    assert(s2[i].name == list);
    lemma_list_index_unique(s2, list, i);
    assert(tasks_of(s2, list) == ts.push(fresh));
    let p = ts.push(fresh);
    assert(p.drop_last() =~= ts);
    assert(p.last() == fresh);
    lemma_tasks_named_absent(ts, task);
    assert(tasks_named(p, task) == tasks_named(ts, task).push(fresh));
}

/// After one add the name is taken in that list, its task count one higher;
/// by `add_task`'s contract a second add of the same name to the same list
/// therefore reports `TaskAlreadyExists` and changes nothing.
pub proof fn lemma_add_twice_rejected(s: StoreView, task: Seq<char>, list: Seq<char>)
    requires
        store_wf(s),
        has_list(s, list),
        !has_task(tasks_of(s, list), task),
        task.len() > 0,
    ensures
        store_wf(store_with_task_added(s, task, list)),
        has_list(store_with_task_added(s, task, list), list),
        has_task(tasks_of(store_with_task_added(s, task, list), list), task),
        tasks_of(store_with_task_added(s, task, list), list).len() == tasks_of(s, list).len() + 1,
{
    let i = list_index(s, list);
    assert(0 <= i < s.len() && s[i].name == list);
    let ts = tasks_of(s, list);
    let fresh = TaskView { name: task, checked: false };
    let s2 = store_with_task_added(s, task, list);
    lemma_tasks_wf_push(ts, task);
    lemma_wf_update_tasks(s, i, ts.push(fresh));
    assert(s2[i].name == list);
    lemma_list_index_unique(s2, list, i);
    assert(tasks_of(s2, list) == ts.push(fresh));
    assert(tasks_of(s2, list)[ts.len() as int].name == task);
}

/// Toggling the same task in the same list twice returns the store to
/// exactly where it stood: `check_task` is an involution.
pub proof fn lemma_check_involution(s: StoreView, task: Seq<char>, list: Seq<char>)
    requires
        store_wf(s),
    ensures
        store_with_task_toggled(store_with_task_toggled(s, task, list), task, list) == s,
{
    if has_list(s, list) && has_task(tasks_of(s, list), task) {
        let i = list_index(s, list);
        assert(0 <= i < s.len() && s[i].name == list);
        let ts = tasks_of(s, list);
        let j = task_index(ts, task);
        assert(0 <= j < ts.len() && ts[j].name == task);
        let flipped = TaskView { name: ts[j].name, checked: !ts[j].checked };
        let ts2 = ts.update(j, flipped);
        let s2 = store_with_task_toggled(s, task, list);
        lemma_tasks_wf_toggle(ts, j);
        lemma_wf_update_tasks(s, i, ts2);
        assert(s2[i].name == list);
        lemma_list_index_unique(s2, list, i);
        assert(tasks_of(s2, list) == ts2);
        assert(ts2[j].name == task);
        lemma_task_index_unique(ts2, task, j);
        let back = TaskView { name: ts2[j].name, checked: !ts2[j].checked };
        assert(back =~= ts[j]);
        assert(ts2.update(j, back) =~= ts);
        assert(store_with_task_toggled(s2, task, list) =~~= s);
    }
}

/// A removed task leaves its list exactly one task shorter and is gone
/// from it.
pub proof fn lemma_remove_removes(s: StoreView, task: Seq<char>, list: Seq<char>)
    requires
        store_wf(s),
        has_list(s, list),
        has_task(tasks_of(s, list), task),
    ensures
        has_list(store_with_task_removed(s, task, list), list),
        tasks_of(store_with_task_removed(s, task, list), list).len() == tasks_of(s, list).len()
            - 1,
        !has_task(tasks_of(store_with_task_removed(s, task, list), list), task),
{
    let i = list_index(s, list);
    assert(0 <= i < s.len() && s[i].name == list);
    let ts = tasks_of(s, list);
    let j = task_index(ts, task);
    assert(0 <= j < ts.len() && ts[j].name == task);
    let ts2 = ts.remove(j);
    ts.remove_ensures(j);
    let s2 = store_with_task_removed(s, task, list);
    lemma_tasks_wf_remove(ts, j);
    lemma_wf_update_tasks(s, i, ts2);
    assert(s2[i].name == list);
    lemma_list_index_unique(s2, list, i);
    assert(tasks_of(s2, list) == ts2);
    if has_task(ts2, task) {
        let w = choose|k: int| 0 <= k < ts2.len() && ts2[k].name == task;
        let w0: int = if w < j {
            w
        } else {
            w + 1
        };
        assert(ts2[w] == ts[w0]);
        lemma_task_index_unique(ts, task, w0);
    }
}

/// With no same-named task in any other list, a remove leaves nothing of
/// that name behind: by `remove_task`'s contract a second remove of the same
/// name from the same list therefore reports `TaskNotFound`.
pub proof fn lemma_remove_twice_not_found(s: StoreView, task: Seq<char>, list: Seq<char>)
    requires
        store_wf(s),
        has_list(s, list),
        has_task(tasks_of(s, list), task),
        candidate_names(s, task, list).len() == 0,
    ensures
        store_wf(store_with_task_removed(s, task, list)),
        has_list(store_with_task_removed(s, task, list), list),
        !has_task(tasks_of(store_with_task_removed(s, task, list), list), task),
        candidate_names(store_with_task_removed(s, task, list), task, list).len() == 0,
{
    lemma_remove_removes(s, task, list);
    lemma_wf_removed(s, task, list);
    let s2 = store_with_task_removed(s, task, list);
    let i = list_index(s, list);
    assert(0 <= i < s.len() && s[i].name == list);
    lemma_candidate_names_membership(s, task, list);
    lemma_candidate_names_membership(s2, task, list);
    let c2 = candidate_names(s2, task, list);
    if c2.len() > 0 {
        let n = c2[0];
        assert(c2.contains(n));
        let k = choose|k: int|
            0 <= k < s2.len() && #[trigger] s2[k].name == n && n != list && has_task(
                s2[k].tasks,
                task,
            );
        assert(s2[k] == update_tasks_at(s, i, tasks_of(s2, list))[k]);
        assert(k != i);
        assert(s2[k] == s[k]);
        assert(candidate_names(s, task, list).contains(n));
    }
}

/// A load followed by a save is a no-op: whatever store a text holds, the
/// text written for that store holds exactly the same store — same list
/// names, same task sequences.
pub proof fn lemma_load_save_no_op(text: Seq<char>, s: StoreView)
    requires
        parse_store(text) == Some(s),
    ensures
        parse_store(encode_store(s)) == Some(s),
{
    lemma_store_roundtrip(s);
}

} // verus!
