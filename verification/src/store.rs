use vstd::prelude::*;

use crate::errors::ListError;
use crate::errors::TaskError;
use crate::model::ListView;
use crate::model::StoreView;
use crate::model::all_tasks;
use crate::model::any_list_with;
use crate::model::candidate_names;
use crate::model::first_list_with;
use crate::model::has_list;
use crate::model::has_task;
use crate::model::lemma_all_tasks_step;
use crate::model::lemma_first_list_unique;
use crate::model::lemma_candidate_names_step;
use crate::model::lemma_list_index_unique;
use crate::model::lemma_task_index_unique;
use crate::model::lemma_wf_push_list;
use crate::model::lemma_wf_remove_list;
use crate::model::lemma_wf_removed;
use crate::model::lemma_wf_toggled;
use crate::model::list_index;
use crate::model::list_names;
use crate::model::store_wf;
use crate::model::store_with_task_added;
use crate::model::store_with_task_removed;
use crate::model::store_with_task_removed_in;
use crate::model::store_with_task_toggled;
use crate::model::store_with_task_toggled_in;
use crate::model::task_index;
use crate::model::tasks_of;
use crate::task::Task;
use crate::task::TaskView;

verus! {

/// Character-for-character string equality.
pub(crate) fn str_eq(a: &str, b: &str) -> (r: bool)
    ensures
        r == (a@ == b@),
{
    let sa: String = a.to_owned();
    let sb: String = b.to_owned();
    sa == sb
}

/// One named list of the store and its tasks, in insertion order.
#[derive(Debug)]
pub struct TaskList {
    pub name: String,
    pub tasks: Vec<Task>,
}

impl View for TaskList {
    type V = ListView;

    open spec fn view(&self) -> ListView {
        ListView { name: self.name@, tasks: self.tasks.deep_view() }
    }
}

impl DeepView for TaskList {
    type V = ListView;

    open spec fn deep_view(&self) -> ListView {
        self@
    }
}

/// The task store: every named list, in creation order. One value of this
/// type is what one command loads, mutates and saves as a whole.
#[derive(Debug)]
pub struct Store {
    lists: Vec<TaskList>,
}

impl View for Store {
    type V = StoreView;

    closed spec fn view(&self) -> StoreView {
        self.lists.deep_view()
    }
}

/// The first task named `name` in `tasks`, if any.
fn find_task(tasks: &Vec<Task>, name: &str) -> (r: Option<usize>)
    ensures
        match r {
            Some(j) => j < tasks@.len() && tasks.deep_view()[j as int].name == name@ && (forall|
                k: int,
            |
                0 <= k < j as int ==> tasks.deep_view()[k].name != name@) && has_task(
                tasks.deep_view(),
                name@,
            ),
            None => !has_task(tasks.deep_view(), name@),
        },
{
    let n = tasks.len();
    let mut j: usize = 0;
    while j < n
        invariant
            n == tasks@.len(),
            j <= n,
            forall|k: int| 0 <= k < j as int ==> tasks.deep_view()[k].name != name@,
        decreases n - j,
    {
        if str_eq(tasks[j].name.as_str(), name) {
            return Some(j);
        }
        j += 1;
    }
    proof {
        if has_task(tasks.deep_view(), name@) {
            let w = choose|i: int|
                0 <= i < tasks.deep_view().len() && tasks.deep_view()[i].name == name@;
            assert(tasks.deep_view()[w].name != name@);
        }
    }
    None
}

impl Store {
    /// The store's invariant: list names pairwise distinct and non-empty,
    /// task names pairwise distinct and non-empty within each list.
    pub open spec fn wf(&self) -> bool {
        store_wf(self@)
    }

    /// An empty store, the state before any list was created.
    pub fn new() -> (r: Store)
        ensures
            r@ == Seq::<ListView>::empty(),
            r.wf(),
    {
        let s = Store { lists: Vec::new() };
        proof {
            assert(s@ =~= Seq::<ListView>::empty());
        }
        s
    }

    /// The lists as stored, read by the persistence functions of this crate.
    pub(crate) fn entries(&self) -> (r: &Vec<TaskList>)
        ensures
            r.deep_view() == self@,
    {
        &self.lists
    }

    /// A store over already-parsed lists, built by the persistence functions
    /// of this crate.
    pub(crate) fn from_entries(lists: Vec<TaskList>) -> (r: Store)
        ensures
            r@ == lists.deep_view(),
    {
        Store { lists }
    }

    /// The first list named `name`, if any.
    fn find_list(&self, name: &str) -> (r: Option<usize>)
        ensures
            match r {
                Some(i) => i < self@.len() && self@[i as int].name == name@ && (forall|j: int|
                    0 <= j < i as int ==> self@[j].name != name@) && has_list(self@, name@),
                None => !has_list(self@, name@),
            },
    {
        let n = self.lists.len();
        let mut i: usize = 0;
        while i < n
            invariant
                n == self.lists@.len(),
                i <= n,
                forall|j: int| 0 <= j < i as int ==> self@[j].name != name@,
            decreases n - i,
        {
            if str_eq(self.lists[i].name.as_str(), name) {
                return Some(i);
            }
            i += 1;
        }
        proof {
            if has_list(self@, name@) {
                let w = choose|j: int| 0 <= j < self@.len() && self@[j].name == name@;
                assert(self@[w].name != name@);
            }
        }
        None
    }

    /// Creates an empty list named `name`; fails when a list of that name
    /// already exists, leaving the store unchanged.
    pub fn create_list(&mut self, name: &str) -> (r: Result<(), ListError>)
        requires
            old(self).wf(),
            name@.len() > 0,
        ensures
            final(self).wf(),
            has_list(old(self)@, name@) ==> r == Err::<(), ListError>(ListError::AlreadyExists)
                && final(self)@ == old(self)@,
            !has_list(old(self)@, name@) ==> r == Ok::<(), ListError>(()) && final(self)@ == old(
                self,
            )@.push(ListView { name: name@, tasks: Seq::empty() }),
    {
        match self.find_list(name) {
            Some(_) => Err(ListError::AlreadyExists),
            None => {
                let entry = TaskList { name: name.to_owned(), tasks: Vec::new() };
                proof {
                    lemma_wf_push_list(self@, name@);
                }
                self.lists.push(entry);
                proof {
                    assert(self@ =~~= old(self)@.push(
                        ListView { name: name@, tasks: Seq::empty() },
                    ));
                }
                Ok(())
            },
        }
    }

    /// Deletes the list named `name` and every task it holds; fails when no
    /// such list exists, leaving the store unchanged.
    pub fn delete_list(&mut self, name: &str) -> (r: Result<(), ListError>)
        requires
            old(self).wf(),
        ensures
            final(self).wf(),
            !has_list(old(self)@, name@) ==> r == Err::<(), ListError>(ListError::NotFound)
                && final(self)@ == old(self)@,
            has_list(old(self)@, name@) ==> r == Ok::<(), ListError>(()) && final(self)@ == old(
                self,
            )@.remove(list_index(old(self)@, name@)) && !has_list(final(self)@, name@),
    {
        match self.find_list(name) {
            None => Err(ListError::NotFound),
            Some(i) => {
                proof {
                    lemma_list_index_unique(self@, name@, i as int);
                }
                self.lists.remove(i);
                proof {
                    let s0 = old(self)@;
                    s0.remove_ensures(i as int);
                    old(self).lists@.remove_ensures(i as int);
                    assert(self@ =~= s0.remove(i as int));
                    lemma_wf_remove_list(s0, i as int);
                    if has_list(self@, name@) {
                        let w = choose|j: int| 0 <= j < self@.len() && self@[j].name == name@;
                        let w0: int = if w < i as int {
                            w
                        } else {
                            w + 1
                        };
                        assert(self@[w] == s0[w0]);
                        assert(s0[w0].name == s0[i as int].name);
                        assert(false);
                    }
                }
                Ok(())
            },
        }
    }

    /// The names of all lists, in enumeration order.
    pub fn get_lists(&self) -> (r: Vec<String>)
        ensures
            r.deep_view() == list_names(self@),
    {
        let mut r: Vec<String> = Vec::new();
        let n = self.lists.len();
        let mut i: usize = 0;
        while i < n
            invariant
                n == self.lists@.len(),
                i <= n,
                r@.len() == i,
                forall|j: int| 0 <= j < i as int ==> r.deep_view()[j] == self@[j].name,
            decreases n - i,
        {
            let ghost prev = r.deep_view();
            r.push(self.lists[i].name.clone());
            proof {
                assert(r.deep_view() =~= prev.push(self@[i as int].name));
            }
            i += 1;
        }
        proof {
            assert(r.deep_view() =~= list_names(self@));
        }
        r
    }

    /// Appends a fresh, unchecked task named `task` to the list named
    /// `list`; fails when the list is missing or already holds a task of
    /// that name, leaving the store unchanged.
    pub fn add_task(&mut self, task: &str, list: &str) -> (r: Result<(), TaskError>)
        requires
            old(self).wf(),
            task@.len() > 0,
        ensures
            final(self).wf(),
            !has_list(old(self)@, list@) ==> r == Err::<(), TaskError>(TaskError::ListNotFound)
                && final(self)@ == old(self)@,
            has_list(old(self)@, list@) && has_task(tasks_of(old(self)@, list@), task@) ==> r
                == Err::<(), TaskError>(TaskError::TaskAlreadyExists) && final(self)@ == old(
                self,
            )@,
            has_list(old(self)@, list@) && !has_task(tasks_of(old(self)@, list@), task@) ==> r
                == Ok::<(), TaskError>(()) && final(self)@ == store_with_task_added(
                old(self)@,
                task@,
                list@,
            ),
    {
        let idx = match self.find_list(list) {
            Some(i) => i,
            None => {
                return Err(TaskError::ListNotFound);
            },
        };
        proof {
            lemma_list_index_unique(self@, list@, idx as int);
        }
        if find_task(&self.lists[idx].tasks, task).is_some() {
            return Err(TaskError::TaskAlreadyExists);
        }
        let t = Task { name: task.to_owned(), checked: false };
        let entry = &mut self.lists[idx];
        entry.tasks.push(t);
        proof {
            let s0 = old(self)@;
            assert(self@ =~~= store_with_task_added(s0, task@, list@));
            crate::model::lemma_tasks_wf_push(tasks_of(s0, list@), task@);
            crate::model::lemma_wf_update_tasks(
                s0,
                list_index(s0, list@),
                tasks_of(s0, list@).push(TaskView { name: task@, checked: false }),
            );
        }
        Ok(())
    }

    /// The names of the lists other than `exclude` that hold a task named
    /// `task`, in enumeration order: the candidate search of the cross-list
    /// resolver, free of side effects.
    pub fn find_candidates(&self, task: &str, exclude: &str) -> (r: Vec<String>)
        ensures
            r.deep_view() == candidate_names(self@, task@, exclude@),
    {
        let mut r: Vec<String> = Vec::new();
        let n = self.lists.len();
        let mut i: usize = 0;
        proof {
            assert(self@.take(0) =~= Seq::<ListView>::empty());
            assert(r.deep_view() =~= candidate_names(self@.take(0), task@, exclude@));
        }
        while i < n
            invariant
                n == self.lists@.len(),
                i <= n,
                r.deep_view() == candidate_names(self@.take(i as int), task@, exclude@),
            decreases n - i,
        {
            let same = str_eq(self.lists[i].name.as_str(), exclude);
            let found = find_task(&self.lists[i].tasks, task).is_some();
            let ghost prev = r.deep_view();
            if !same && found {
                r.push(self.lists[i].name.clone());
                proof {
                    assert(r.deep_view() =~= prev.push(self@[i as int].name));
                }
            }
            proof {
                lemma_candidate_names_step(self@, task@, exclude@, i as int);
            }
            i += 1;
        }
        proof {
            assert(self@.take(n as int) =~= self@);
        }
        r
    }

    /// Removes the task named `task` from the list named `list` where both
    /// exist; otherwise leaves the store as it is.
    fn remove_task_in_one(&mut self, task: &str, list: &str)
        requires
            old(self).wf(),
        ensures
            final(self).wf(),
            final(self)@ == store_with_task_removed(old(self)@, task@, list@),
    {
        proof {
            lemma_wf_removed(old(self)@, task@, list@);
        }
        let idx = match self.find_list(list) {
            Some(i) => i,
            None => {
                return;
            },
        };
        proof {
            lemma_list_index_unique(self@, list@, idx as int);
        }
        let j = match find_task(&self.lists[idx].tasks, task) {
            Some(j) => j,
            None => {
                return;
            },
        };
        proof {
            lemma_task_index_unique(old(self)@[idx as int].tasks, task@, j as int);
        }
        let entry = &mut self.lists[idx];
        entry.tasks.remove(j);
        proof {
            assert(self@ =~~= store_with_task_removed(old(self)@, task@, list@));
        }
    }

    /// Flips `checked` on the task named `task` in the list named `list`
    /// where both exist, answering the new value; otherwise leaves the store
    /// as it is and answers nothing.
    fn check_task_in_one(&mut self, task: &str, list: &str) -> (r: Option<bool>)
        requires
            old(self).wf(),
        ensures
            final(self).wf(),
            final(self)@ == store_with_task_toggled(old(self)@, task@, list@),
            ({
                let s0 = old(self)@;
                if has_list(s0, list@) && has_task(tasks_of(s0, list@), task@) {
                    r == Some(!tasks_of(s0, list@)[task_index(tasks_of(s0, list@), task@)].checked)
                } else {
                    r == None::<bool>
                }
            }),
    {
        proof {
            lemma_wf_toggled(old(self)@, task@, list@);
        }
        let idx = match self.find_list(list) {
            Some(i) => i,
            None => {
                return None;
            },
        };
        proof {
            lemma_list_index_unique(self@, list@, idx as int);
        }
        let j = match find_task(&self.lists[idx].tasks, task) {
            Some(j) => j,
            None => {
                return None;
            },
        };
        proof {
            lemma_task_index_unique(old(self)@[idx as int].tasks, task@, j as int);
        }
        let entry = &mut self.lists[idx];
        let t = &mut entry.tasks[j];
        t.checked = !t.checked;
        let b = t.checked;
        proof {
            assert(self@ =~~= store_with_task_toggled(old(self)@, task@, list@));
        }
        Some(b)
    }

    /// Removes the task named `task` from the list named `list`. Where the
    /// task is not there, reports instead which other lists hold one of that
    /// name, so the caller can put the choice to the user; the store is then
    /// left unchanged until `remove_task_in_lists` applies the answer.
    pub fn remove_task(&mut self, task: &str, list: &str) -> (r: Result<RemoveStep, TaskError>)
        requires
            old(self).wf(),
        ensures
            final(self).wf(),
            ({
                let s0 = old(self)@;
                let c = candidate_names(s0, task@, list@);
                if !has_list(s0, list@) {
                    r == Err::<RemoveStep, TaskError>(TaskError::ListNotFound) && final(self)@
                        == s0
                } else if has_task(tasks_of(s0, list@), task@) {
                    r == Ok::<RemoveStep, TaskError>(RemoveStep::Removed) && final(self)@
                        == store_with_task_removed(s0, task@, list@)
                } else if c.len() == 0 {
                    r == Err::<RemoveStep, TaskError>(TaskError::TaskNotFound) && final(self)@
                        == s0
                } else if c.len() == 1 {
                    final(self)@ == s0 && (r matches Ok(RemoveStep::NeedsOne(n)) && n@ == c[0])
                } else {
                    final(self)@ == s0 && (r matches Ok(RemoveStep::NeedsMany(v)) && v.deep_view()
                        == c)
                }
            }),
    {
        let idx = match self.find_list(list) {
            Some(i) => i,
            None => {
                return Err(TaskError::ListNotFound);
            },
        };
        proof {
            lemma_list_index_unique(self@, list@, idx as int);
        }
        if find_task(&self.lists[idx].tasks, task).is_some() {
            self.remove_task_in_one(task, list);
            return Ok(RemoveStep::Removed);
        }
        let c = self.find_candidates(task, list);
        if c.len() == 0 {
            Err(TaskError::TaskNotFound)
        } else if c.len() == 1 {
            let n = c[0].clone();
            Ok(RemoveStep::NeedsOne(n))
        } else {
            Ok(RemoveStep::NeedsMany(c))
        }
    }

    /// Flips `checked` on the task named `task` in the list named `list`,
    /// answering the new value. Where the task is not there, reports instead
    /// which other lists hold one of that name, so the caller can put the
    /// choice to the user; the store is then left unchanged until
    /// `check_task_in_lists` applies the answer.
    pub fn check_task(&mut self, task: &str, list: &str) -> (r: Result<CheckStep, TaskError>)
        requires
            old(self).wf(),
        ensures
            final(self).wf(),
            ({
                let s0 = old(self)@;
                let c = candidate_names(s0, task@, list@);
                if !has_list(s0, list@) {
                    r == Err::<CheckStep, TaskError>(TaskError::ListNotFound) && final(self)@ == s0
                } else if has_task(tasks_of(s0, list@), task@) {
                    final(self)@ == store_with_task_toggled(s0, task@, list@) && (r matches Ok(
                        CheckStep::Toggled(b),
                    ) && b == !tasks_of(s0, list@)[task_index(tasks_of(s0, list@), task@)].checked)
                } else if c.len() == 0 {
                    r == Err::<CheckStep, TaskError>(TaskError::TaskNotFound) && final(self)@ == s0
                } else if c.len() == 1 {
                    final(self)@ == s0 && (r matches Ok(CheckStep::NeedsOne(n)) && n@ == c[0])
                } else {
                    final(self)@ == s0 && (r matches Ok(CheckStep::NeedsMany(v)) && v.deep_view()
                        == c)
                }
            }),
    {
        let idx = match self.find_list(list) {
            Some(i) => i,
            None => {
                return Err(TaskError::ListNotFound);
            },
        };
        proof {
            lemma_list_index_unique(self@, list@, idx as int);
        }
        if find_task(&self.lists[idx].tasks, task).is_some() {
            let b = match self.check_task_in_one(task, list) {
                Some(b) => b,
                None => {
                    // the task was just seen in the list
                    proof {
                        assert(false);
                    }
                    false
                },
            };
            return Ok(CheckStep::Toggled(b));
        }
        let c = self.find_candidates(task, list);
        if c.len() == 0 {
            Err(TaskError::TaskNotFound)
        } else if c.len() == 1 {
            let n = c[0].clone();
            Ok(CheckStep::NeedsOne(n))
        } else {
            Ok(CheckStep::NeedsMany(c))
        }
    }

    /// Removes the task named `task` from each of the given lists in turn,
    /// wherever it stands: the mutation a confirmed cross-list resolution
    /// calls for.
    pub fn remove_task_in_lists(&mut self, task: &str, lists: &Vec<String>)
        requires
            old(self).wf(),
        ensures
            final(self).wf(),
            final(self)@ == store_with_task_removed_in(old(self)@, task@, lists.deep_view()),
    {
        let ghost s0 = old(self)@;
        let ghost names = lists.deep_view();
        let n = lists.len();
        let mut k: usize = 0;
        proof {
            assert(names.skip(0) =~= names);
        }
        while k < n
            invariant
                n == lists@.len(),
                k <= n,
                names == lists.deep_view(),
                self.wf(),
                store_with_task_removed_in(self@, task@, names.skip(k as int))
                    == store_with_task_removed_in(s0, task@, names),
            decreases n - k,
        {
            let ghost before = self@;
            self.remove_task_in_one(task, lists[k].as_str());
            proof {
                assert(names.skip(k as int)[0] == names[k as int]);
                assert(names.skip(k as int).skip(1) =~= names.skip(k as int + 1));
            }
            k += 1;
        }
        proof {
            assert(names.skip(n as int) =~= Seq::<Seq<char>>::empty());
        }
    }

    /// Flips `checked` on the task named `task` in each of the given lists
    /// in turn, wherever it stands: the mutation a confirmed cross-list
    /// resolution calls for.
    pub fn check_task_in_lists(&mut self, task: &str, lists: &Vec<String>)
        requires
            old(self).wf(),
        ensures
            final(self).wf(),
            final(self)@ == store_with_task_toggled_in(old(self)@, task@, lists.deep_view()),
    {
        let ghost s0 = old(self)@;
        let ghost names = lists.deep_view();
        let n = lists.len();
        let mut k: usize = 0;
        proof {
            assert(names.skip(0) =~= names);
        }
        while k < n
            invariant
                n == lists@.len(),
                k <= n,
                names == lists.deep_view(),
                self.wf(),
                store_with_task_toggled_in(self@, task@, names.skip(k as int))
                    == store_with_task_toggled_in(s0, task@, names),
            decreases n - k,
        {
            let _ = self.check_task_in_one(task, lists[k].as_str());
            proof {
                assert(names.skip(k as int)[0] == names[k as int]);
                assert(names.skip(k as int).skip(1) =~= names.skip(k as int + 1));
            }
            k += 1;
        }
        proof {
            assert(names.skip(n as int) =~= Seq::<Seq<char>>::empty());
        }
    }

    /// Flips `checked` on the first task named `task` over the lists in
    /// enumeration order, answering the new value; same-named tasks in later
    /// lists stay untouched. The whole-store check, when no list was named.
    pub fn check_task_anywhere(&mut self, task: &str) -> (r: Result<bool, TaskError>)
        requires
            old(self).wf(),
        ensures
            final(self).wf(),
            ({
                let s0 = old(self)@;
                if any_list_with(s0, task@) {
                    let i = first_list_with(s0, task@);
                    let ts = s0[i].tasks;
                    final(self)@ == store_with_task_toggled(s0, task@, s0[i].name) && (r matches Ok(
                        b,
                    ) && b == !ts[task_index(ts, task@)].checked)
                } else {
                    r == Err::<bool, TaskError>(TaskError::TaskNotFound) && final(self)@ == s0
                }
            }),
    {
        let n = self.lists.len();
        let mut i: usize = 0;
        while i < n
            invariant
                n == self.lists@.len(),
                i <= n,
                old(self) == self,
                self.wf(),
                forall|j: int| 0 <= j < i as int ==> !has_task(#[trigger] self@[j].tasks, task@),
            decreases n - i,
        {
            if find_task(&self.lists[i].tasks, task).is_some() {
                proof {
                    lemma_first_list_unique(self@, task@, i as int);
                    lemma_list_index_unique(self@, self@[i as int].name, i as int);
                }
                let name = self.lists[i].name.clone();
                let b = match self.check_task_in_one(task, name.as_str()) {
                    Some(b) => b,
                    None => {
                        // the task was just seen in this list
                        proof {
                            assert(false);
                        }
                        false
                    },
                };
                return Ok(b);
            }
            i += 1;
        }
        proof {
            if any_list_with(self@, task@) {
                let w = choose|j: int|
                    0 <= j < self@.len() && has_task(#[trigger] self@[j].tasks, task@);
                assert(!has_task(self@[w].tasks, task@));
            }
        }
        Err(TaskError::TaskNotFound)
    }

    /// The tasks of the list named `list`; or, where no list is named, every
    /// task of the store, list after list in enumeration order.
    pub fn get_tasks(&self, list: Option<&str>) -> (r: Result<Vec<Task>, ListError>)
        ensures
            ({
                match list {
                    Some(l) => {
                        if has_list(self@, l@) {
                            exists|i: int|
                                0 <= i < self@.len() && self@[i].name == l@ && (r matches Ok(v)
                                    && v.deep_view() == #[trigger] self@[i].tasks)
                        } else {
                            r == Err::<Vec<Task>, ListError>(ListError::NotFound)
                        }
                    },
                    None => r matches Ok(v) && v.deep_view() == all_tasks(self@),
                }
            }),
    {
        match list {
            Some(l) => {
                match self.find_list(l) {
                    None => Err(ListError::NotFound),
                    Some(i) => {
                        let mut out: Vec<Task> = Vec::new();
                        clone_tasks_into(&self.lists[i].tasks, &mut out);
                        proof {
                            assert(out.deep_view() =~= self@[i as int].tasks);
                        }
                        Ok(out)
                    },
                }
            },
            None => {
                let mut out: Vec<Task> = Vec::new();
                let n = self.lists.len();
                let mut i: usize = 0;
                proof {
                    assert(self@.take(0) =~= Seq::<ListView>::empty());
                    assert(out.deep_view() =~= all_tasks(self@.take(0)));
                }
                while i < n
                    invariant
                        n == self.lists@.len(),
                        i <= n,
                        out.deep_view() == all_tasks(self@.take(i as int)),
                    decreases n - i,
                {
                    clone_tasks_into(&self.lists[i].tasks, &mut out);
                    proof {
                        lemma_all_tasks_step(self@, i as int);
                    }
                    i += 1;
                }
                proof {
                    assert(self@.take(n as int) =~= self@);
                }
                Ok(out)
            },
        }
    }
}

/// Appends a copy of every task of `src` to `dst`, in order.
fn clone_tasks_into(src: &Vec<Task>, dst: &mut Vec<Task>)
    ensures
        final(dst).deep_view() == old(dst).deep_view() + src.deep_view(),
{
    let n = src.len();
    let mut j: usize = 0;
    proof {
        assert(dst.deep_view() =~= old(dst).deep_view() + src.deep_view().take(0));
    }
    while j < n
        invariant
            n == src@.len(),
            j <= n,
            dst.deep_view() == old(dst).deep_view() + src.deep_view().take(j as int),
        decreases n - j,
    {
        let ghost prev = dst.deep_view();
        dst.push(src[j].clone());
        proof {
            assert(dst.deep_view() =~= prev.push(src.deep_view()[j as int]));
            assert(dst.deep_view() =~= old(dst).deep_view() + src.deep_view().take(j as int + 1));
        }
        j += 1;
    }
    proof {
        assert(src.deep_view().take(n as int) =~= src.deep_view());
        assert(dst.deep_view() =~= old(dst).deep_view() + src.deep_view());
    }
}

/// What a remove attempt on one named list came to.
#[derive(Debug)]
pub enum RemoveStep {
    /// The task stood in the named list and has left it.
    Removed,
    /// The task stands in exactly one other list, the named one; the caller
    /// asks the user before removing it there.
    NeedsOne(String),
    /// The task stands in several other lists, the named ones; the caller
    /// lets the user choose where to remove it.
    NeedsMany(Vec<String>),
}

/// What a check attempt on one named list came to.
#[derive(Debug)]
pub enum CheckStep {
    /// The task stood in the named list; its new `checked` value.
    Toggled(bool),
    /// The task stands in exactly one other list, the named one; the caller
    /// asks the user before toggling it there.
    NeedsOne(String),
    /// The task stands in several other lists, the named ones; the caller
    /// lets the user choose where to toggle it.
    NeedsMany(Vec<String>),
}

} // verus!
