use vstd::prelude::*;

use crate::task::TaskView;

verus! {

/// Mathematical value of one named list: its name and its tasks in
/// insertion order.
#[verifier::ext_equal]
pub ghost struct ListView {
    pub name: Seq<char>,
    pub tasks: Seq<TaskView>,
}

/// The whole store: named lists in their enumeration order, which is the
/// order the lists were created in.
pub type StoreView = Seq<ListView>;

/// Does `ts` hold a task named `name`?
pub open spec fn has_task(ts: Seq<TaskView>, name: Seq<char>) -> bool {
    exists|i: int| 0 <= i < ts.len() && ts[i].name == name
}

/// The index of the task named `name`: the index, under
/// `distinct_task_names` and `has_task`.
pub open spec fn task_index(ts: Seq<TaskView>, name: Seq<char>) -> int {
    choose|i: int| 0 <= i < ts.len() && ts[i].name == name
}

/// No two tasks share a name.
pub open spec fn distinct_task_names(ts: Seq<TaskView>) -> bool {
    forall|i: int, j: int| 0 <= i < j < ts.len() ==> ts[i].name != ts[j].name
}

/// Task names are pairwise distinct and non-empty.
pub open spec fn tasks_wf(ts: Seq<TaskView>) -> bool {
    &&& distinct_task_names(ts)
    &&& forall|i: int| 0 <= i < ts.len() ==> ts[i].name.len() > 0
}

/// The list's name is non-empty and its tasks are well-formed.
pub open spec fn list_wf(l: ListView) -> bool {
    &&& l.name.len() > 0
    &&& tasks_wf(l.tasks)
}

/// The names of the lists, in enumeration order.
pub open spec fn list_names(s: StoreView) -> Seq<Seq<char>> {
    s.map_values(|l: ListView| l.name)
}

/// Does the store hold a list named `name`?
pub open spec fn has_list(s: StoreView, name: Seq<char>) -> bool {
    exists|i: int| 0 <= i < s.len() && s[i].name == name
}

/// The index of the list named `name`: the index, under
/// `distinct_list_names` and `has_list`.
pub open spec fn list_index(s: StoreView, name: Seq<char>) -> int {
    choose|i: int| 0 <= i < s.len() && s[i].name == name
}

/// The tasks of the list named `name`, under `has_list`.
pub open spec fn tasks_of(s: StoreView, name: Seq<char>) -> Seq<TaskView> {
    s[list_index(s, name)].tasks
}

/// No two lists share a name.
pub open spec fn distinct_list_names(s: StoreView) -> bool {
    forall|i: int, j: int| 0 <= i < j < s.len() ==> s[i].name != s[j].name
}

/// The store's invariant: list names pairwise distinct and non-empty, and
/// every list well-formed in itself.
pub open spec fn store_wf(s: StoreView) -> bool {
    &&& distinct_list_names(s)
    &&& forall|i: int| 0 <= i < s.len() ==> list_wf(#[trigger] s[i])
}

/// `s` with the task sequence of the list at index `i` replaced by `ts`.
pub open spec fn update_tasks_at(s: StoreView, i: int, ts: Seq<TaskView>) -> StoreView {
    s.update(i, ListView { name: s[i].name, tasks: ts })
}

/// The store after a fresh, unchecked task named `task` is appended to the
/// list named `list`, under `has_list`.
pub open spec fn store_with_task_added(s: StoreView, task: Seq<char>, list: Seq<char>) -> StoreView {
    update_tasks_at(
        s,
        list_index(s, list),
        tasks_of(s, list).push(TaskView { name: task, checked: false }),
    )
}

/// The store after the task named `task` leaves the list named `list`,
/// order-preserving; the store itself where the list or the task is missing.
pub open spec fn store_with_task_removed(s: StoreView, task: Seq<char>, list: Seq<char>) -> StoreView {
    if has_list(s, list) && has_task(tasks_of(s, list), task) {
        let ts = tasks_of(s, list);
        update_tasks_at(s, list_index(s, list), ts.remove(task_index(ts, task)))
    } else {
        s
    }
}

/// The store after `checked` flips on the task named `task` in the list
/// named `list`; the store itself where the list or the task is missing.
pub open spec fn store_with_task_toggled(s: StoreView, task: Seq<char>, list: Seq<char>) -> StoreView {
    if has_list(s, list) && has_task(tasks_of(s, list), task) {
        let ts = tasks_of(s, list);
        let j = task_index(ts, task);
        update_tasks_at(
            s,
            list_index(s, list),
            ts.update(j, TaskView { name: ts[j].name, checked: !ts[j].checked }),
        )
    } else {
        s
    }
}

/// Removal of `task` applied to each named list in turn, first to last.
pub open spec fn store_with_task_removed_in(
    s: StoreView,
    task: Seq<char>,
    lists: Seq<Seq<char>>,
) -> StoreView
    decreases lists.len(),
{
    if lists.len() == 0 {
        s
    } else {
        store_with_task_removed_in(store_with_task_removed(s, task, lists[0]), task, lists.skip(1))
    }
}

/// Toggling of `task` applied to each named list in turn, first to last.
pub open spec fn store_with_task_toggled_in(
    s: StoreView,
    task: Seq<char>,
    lists: Seq<Seq<char>>,
) -> StoreView
    decreases lists.len(),
{
    if lists.len() == 0 {
        s
    } else {
        store_with_task_toggled_in(store_with_task_toggled(s, task, lists[0]), task, lists.skip(1))
    }
}

/// The names of the lists other than `exclude` that hold a task named
/// `task`, in store enumeration order.
pub open spec fn candidate_names(s: StoreView, task: Seq<char>, exclude: Seq<char>) -> Seq<
    Seq<char>,
>
    decreases s.len(),
{
    if s.len() == 0 {
        Seq::empty()
    } else {
        let init = candidate_names(s.drop_last(), task, exclude);
        if s.last().name != exclude && has_task(s.last().tasks, task) {
            init.push(s.last().name)
        } else {
            init
        }
    }
}

/// Every task of the store, list after list in enumeration order.
pub open spec fn all_tasks(s: StoreView) -> Seq<TaskView>
    decreases s.len(),
{
    if s.len() == 0 {
        Seq::empty()
    } else {
        all_tasks(s.drop_last()) + s.last().tasks
    }
}

/// The tasks of `ts` that are named `name`, in order.
pub open spec fn tasks_named(ts: Seq<TaskView>, name: Seq<char>) -> Seq<TaskView>
    decreases ts.len(),
{
    if ts.len() == 0 {
        Seq::empty()
    } else {
        let init = tasks_named(ts.drop_last(), name);
        if ts.last().name == name {
            init.push(ts.last())
        } else {
            init
        }
    }
}

/// Is `i` the first list in enumeration order that holds a task named
/// `task`?
pub open spec fn is_first_list_with(s: StoreView, task: Seq<char>, i: int) -> bool {
    &&& 0 <= i < s.len()
    &&& has_task(s[i].tasks, task)
    &&& forall|j: int| 0 <= j < i ==> !has_task(#[trigger] s[j].tasks, task)
}

/// The index of the first list that holds a task named `task`, under
/// `any_list_with`.
pub open spec fn first_list_with(s: StoreView, task: Seq<char>) -> int {
    choose|i: int| is_first_list_with(s, task, i)
}

/// Does any list of the store hold a task named `task`?
pub open spec fn any_list_with(s: StoreView, task: Seq<char>) -> bool {
    exists|i: int| 0 <= i < s.len() && has_task(#[trigger] s[i].tasks, task)
}

/// Under distinct task names, an index that holds `name` is the task index.
pub proof fn lemma_task_index_unique(ts: Seq<TaskView>, name: Seq<char>, i: int)
    requires
        distinct_task_names(ts),
        0 <= i < ts.len(),
        ts[i].name == name,
    ensures
        has_task(ts, name),
        task_index(ts, name) == i,
{
    assert(has_task(ts, name));
    let j = task_index(ts, name);
    assert(0 <= j < ts.len() && ts[j].name == name);
    if i < j {
        assert(ts[i].name != ts[j].name);
    }
    if j < i {
        assert(ts[j].name != ts[i].name);
    }
}

/// Under distinct list names, an index that holds `name` is the list index.
pub proof fn lemma_list_index_unique(s: StoreView, name: Seq<char>, i: int)
    requires
        distinct_list_names(s),
        0 <= i < s.len(),
        s[i].name == name,
    ensures
        has_list(s, name),
        list_index(s, name) == i,
{
    assert(has_list(s, name));
    let j = list_index(s, name);
    assert(0 <= j < s.len() && s[j].name == name);
    if i < j {
        assert(s[i].name != s[j].name);
    }
    if j < i {
        assert(s[j].name != s[i].name);
    }
}

/// Appending a fresh, non-empty list name keeps the store well-formed.
pub proof fn lemma_wf_push_list(s: StoreView, name: Seq<char>)
    requires
        store_wf(s),
        name.len() > 0,
        !has_list(s, name),
    ensures
        store_wf(s.push(ListView { name, tasks: Seq::empty() })),
{
    let s2 = s.push(ListView { name, tasks: Seq::empty() });
    assert forall|i: int, j: int| 0 <= i < j < s2.len() implies s2[i].name != s2[j].name by {
        if j == s.len() {
            assert(s2[i] == s[i]);
            if s[i].name == name {
                assert(has_list(s, name));
            }
        }
    }
    assert forall|i: int| 0 <= i < s2.len() implies list_wf(s2[i]) by {
        if i < s.len() {
            assert(s2[i] == s[i]);
        }
    }
}

/// Removing a list keeps the store well-formed.
pub proof fn lemma_wf_remove_list(s: StoreView, i: int)
    requires
        store_wf(s),
        0 <= i < s.len(),
    ensures
        store_wf(s.remove(i)),
{
    s.remove_ensures(i);
    let s2 = s.remove(i);
    assert forall|p: int, q: int| 0 <= p < q < s2.len() implies s2[p].name != s2[q].name by {
        let p0: int = if p < i { p } else { p + 1 };
        let q0: int = if q < i { q } else { q + 1 };
        assert(s2[p] == s[p0]);
        assert(s2[q] == s[q0]);
    }
    assert forall|p: int| 0 <= p < s2.len() implies list_wf(s2[p]) by {
        let p0: int = if p < i { p } else { p + 1 };
        assert(s2[p] == s[p0]);
    }
}

/// Replacing one list's tasks with well-formed tasks keeps the store
/// well-formed; every list keeps its name.
pub proof fn lemma_wf_update_tasks(s: StoreView, i: int, ts: Seq<TaskView>)
    requires
        store_wf(s),
        0 <= i < s.len(),
        tasks_wf(ts),
    ensures
        store_wf(update_tasks_at(s, i, ts)),
{
    let s2 = update_tasks_at(s, i, ts);
    assert(forall|p: int| 0 <= p < s2.len() ==> #[trigger] s2[p].name == s[p].name);
    assert forall|p: int| 0 <= p < s2.len() implies list_wf(s2[p]) by {
        assert(list_wf(s[p]));
    }
}

/// A fresh, non-empty task name appended keeps the tasks well-formed.
pub proof fn lemma_tasks_wf_push(ts: Seq<TaskView>, name: Seq<char>)
    requires
        tasks_wf(ts),
        name.len() > 0,
        !has_task(ts, name),
    ensures
        tasks_wf(ts.push(TaskView { name, checked: false })),
{
    let ts2 = ts.push(TaskView { name, checked: false });
    assert forall|i: int, j: int| 0 <= i < j < ts2.len() implies ts2[i].name != ts2[j].name by {
        if j == ts.len() {
            assert(ts2[i] == ts[i]);
            if ts[i].name == name {
                assert(has_task(ts, name));
            }
        }
    }
}

/// Removing a task keeps the tasks well-formed.
pub proof fn lemma_tasks_wf_remove(ts: Seq<TaskView>, j: int)
    requires
        tasks_wf(ts),
        0 <= j < ts.len(),
    ensures
        tasks_wf(ts.remove(j)),
{
    ts.remove_ensures(j);
    let ts2 = ts.remove(j);
    assert forall|p: int, q: int| 0 <= p < q < ts2.len() implies ts2[p].name != ts2[q].name by {
        let p0: int = if p < j { p } else { p + 1 };
        let q0: int = if q < j { q } else { q + 1 };
        assert(ts2[p] == ts[p0]);
        assert(ts2[q] == ts[q0]);
    }
    assert forall|p: int| 0 <= p < ts2.len() implies ts2[p].name.len() > 0 by {
        let p0: int = if p < j { p } else { p + 1 };
        assert(ts2[p] == ts[p0]);
    }
}

/// Flipping one task's `checked` keeps the tasks well-formed.
pub proof fn lemma_tasks_wf_toggle(ts: Seq<TaskView>, j: int)
    requires
        tasks_wf(ts),
        0 <= j < ts.len(),
    ensures
        tasks_wf(ts.update(j, TaskView { name: ts[j].name, checked: !ts[j].checked })),
{
    let ts2 = ts.update(j, TaskView { name: ts[j].name, checked: !ts[j].checked });
    assert(forall|p: int| 0 <= p < ts2.len() ==> #[trigger] ts2[p].name == ts[p].name);
}

/// Removal of a task in one named list keeps the store well-formed.
pub proof fn lemma_wf_removed(s: StoreView, task: Seq<char>, list: Seq<char>)
    requires
        store_wf(s),
    ensures
        store_wf(store_with_task_removed(s, task, list)),
{
    if has_list(s, list) && has_task(tasks_of(s, list), task) {
        let i = list_index(s, list);
        assert(0 <= i < s.len() && s[i].name == list);
        let ts = tasks_of(s, list);
        let j = task_index(ts, task);
        assert(0 <= j < ts.len() && ts[j].name == task);
        lemma_tasks_wf_remove(ts, j);
        lemma_wf_update_tasks(s, i, ts.remove(j));
    }
}

/// Toggling a task in one named list keeps the store well-formed.
pub proof fn lemma_wf_toggled(s: StoreView, task: Seq<char>, list: Seq<char>)
    requires
        store_wf(s),
    ensures
        store_wf(store_with_task_toggled(s, task, list)),
{
    if has_list(s, list) && has_task(tasks_of(s, list), task) {
        let i = list_index(s, list);
        assert(0 <= i < s.len() && s[i].name == list);
        let ts = tasks_of(s, list);
        let j = task_index(ts, task);
        assert(0 <= j < ts.len() && ts[j].name == task);
        lemma_tasks_wf_toggle(ts, j);
        lemma_wf_update_tasks(s, i, ts.update(j, TaskView { name: ts[j].name, checked: !ts[j].checked }));
    }
}

/// An index that is first to hold the task is the first such index.
pub proof fn lemma_first_list_unique(s: StoreView, task: Seq<char>, i: int)
    requires
        is_first_list_with(s, task, i),
    ensures
        any_list_with(s, task),
        first_list_with(s, task) == i,
{
    assert(any_list_with(s, task));
    assert(is_first_list_with(s, task, first_list_with(s, task)));
    let j = first_list_with(s, task);
    if i < j {
        assert(!has_task(s[i].tasks, task));
    }
    if j < i {
        assert(!has_task(s[j].tasks, task));
    }
}

/// One scan step of the task gathering, for loops that walk the store
/// front to back.
pub proof fn lemma_all_tasks_step(s: StoreView, i: int)
    requires
        0 <= i < s.len(),
    ensures
        all_tasks(s.take(i + 1)) == all_tasks(s.take(i)) + s[i].tasks,
{
    let t1 = s.take(i + 1);
    assert(t1.drop_last() =~= s.take(i));
    assert(t1.last() == s[i]);
}

/// One scan step of the candidate search, for loops that walk the store
/// front to back.
pub proof fn lemma_candidate_names_step(s: StoreView, task: Seq<char>, exclude: Seq<char>, i: int)
    requires
        0 <= i < s.len(),
    ensures
        candidate_names(s.take(i + 1), task, exclude) == (if s[i].name != exclude && has_task(
            s[i].tasks,
            task,
        ) {
            candidate_names(s.take(i), task, exclude).push(s[i].name)
        } else {
            candidate_names(s.take(i), task, exclude)
        }),
{
    let t1 = s.take(i + 1);
    assert(t1.drop_last() =~= s.take(i));
    assert(t1.last() == s[i]);
}

/// A name is a candidate exactly when some list other than `exclude` bears
/// it and holds the task.
pub proof fn lemma_candidate_names_membership(s: StoreView, task: Seq<char>, exclude: Seq<char>)
    ensures
        forall|n: Seq<char>|
            candidate_names(s, task, exclude).contains(n) <==> exists|i: int|
                0 <= i < s.len() && #[trigger] s[i].name == n && n != exclude && has_task(
                    s[i].tasks,
                    task,
                ),
    decreases s.len(),
{
    if s.len() > 0 {
        lemma_candidate_names_membership(s.drop_last(), task, exclude);
        let c = candidate_names(s, task, exclude);
        let c0 = candidate_names(s.drop_last(), task, exclude);
        assert forall|n: Seq<char>| c.contains(n) implies exists|i: int|
            0 <= i < s.len() && #[trigger] s[i].name == n && n != exclude && has_task(
                s[i].tasks,
                task,
            ) by {
            if c0.contains(n) {
                let i = choose|i: int|
                    0 <= i < s.drop_last().len() && #[trigger] s.drop_last()[i].name == n && n
                        != exclude && has_task(s.drop_last()[i].tasks, task);
                assert(s[i] == s.drop_last()[i]);
                assert(0 <= i < s.len() && s[i].name == n && n != exclude && has_task(
                    s[i].tasks,
                    task,
                ));
            } else {
                let k = choose|k: int| 0 <= k < c.len() && c[k] == n;
                assert(c[k] == n);
                assert(s.last().name != exclude && has_task(s.last().tasks, task));
                assert(n == s.last().name);
                let i = s.len() - 1;
                assert(0 <= i < s.len() && s[i].name == n && n != exclude && has_task(
                    s[i].tasks,
                    task,
                ));
            }
        }
        assert forall|n: Seq<char>|
            (exists|i: int|
                0 <= i < s.len() && #[trigger] s[i].name == n && n != exclude && has_task(
                    s[i].tasks,
                    task,
                )) implies c.contains(n) by {
            let i = choose|i: int|
                0 <= i < s.len() && #[trigger] s[i].name == n && n != exclude && has_task(
                    s[i].tasks,
                    task,
                );
            if i < s.len() - 1 {
                assert(s.drop_last()[i] == s[i]);
                assert(c0.contains(n));
                let k = choose|k: int| 0 <= k < c0.len() && c0[k] == n;
                if s.last().name != exclude && has_task(s.last().tasks, task) {
                    assert(c == c0.push(s.last().name));
                    assert(c[k] == n);
                } else {
                    assert(c == c0);
                }
            } else {
                assert(s.last() == s[i]);
                assert(c == c0.push(s.last().name));
                assert(c[c.len() - 1] == n);
            }
        }
    }
}

} // verus!
