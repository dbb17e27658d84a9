use vstd::prelude::*;
use crate::task::{views_of, Task, TaskError, TaskView};

verus! {

/// Whether a 1-based display index addresses an element of `s`.
pub open spec fn index_ok(s: Seq<TaskView>, index: usize) -> bool {
    1 <= index && index <= s.len()
}

/// The collection after appending a fresh, uncompleted task.
pub open spec fn add_spec(s: Seq<TaskView>, description: Seq<char>) -> Seq<TaskView> {
    s.push(TaskView { description: description, completed: false })
}

/// The collection after replacing the description at display index `index`.
pub open spec fn edit_spec(s: Seq<TaskView>, index: usize, description: Seq<char>) -> Seq<
    TaskView,
> {
    s.update(index - 1, TaskView { description: description, completed: s[index - 1].completed })
}

/// The collection after deleting the element at display index `index`;
/// later elements shift down by one position.
pub open spec fn remove_spec(s: Seq<TaskView>, index: usize) -> Seq<TaskView> {
    s.remove(index - 1)
}

/// The collection after marking the element at display index `index` done.
pub open spec fn complete_spec(s: Seq<TaskView>, index: usize) -> Seq<TaskView> {
    s.update(index - 1, TaskView { description: s[index - 1].description, completed: true })
}

/// The ordered task collection. Its view is the sequence of task values in
/// storage order; a task's 1-based display index is its position plus one.
pub struct TaskList {
    pub tasks: Vec<Task>,
}

impl View for TaskList {
    type V = Seq<TaskView>;

    open spec fn view(&self) -> Seq<TaskView> {
        views_of(self.tasks@)
    }
}

impl TaskList {
    /// An empty collection.
    pub fn new() -> (r: TaskList)
        ensures
            r@ == Seq::<TaskView>::empty(),
    {
        let r = TaskList { tasks: Vec::new() };
        proof {
            assert(r@ =~= Seq::<TaskView>::empty());
        }
        r
    }

    /// How many tasks are stored.
    pub fn len(&self) -> (r: usize)
        ensures
            r == self@.len(),
    {
        self.tasks.len()
    }

    /// Appends a task with the given description and `completed` false.
    /// An empty description is refused and nothing changes.
    pub fn add_task(&mut self, description: String) -> (r: Result<(), TaskError>)
        ensures
            description@.len() == 0 ==> r == Err::<(), TaskError>(TaskError::InvalidInput)
                && final(self)@ == old(self)@,
            description@.len() > 0 ==> r == Ok::<(), TaskError>(()) && final(self)@ == add_spec(
                old(self)@,
                description@,
            ),
    {
        if description.as_str().unicode_len() == 0 {
            return Err(TaskError::InvalidInput);
        }
        self.tasks.push(Task { description, completed: false });
        proof {
            assert(self@ =~= add_spec(old(self)@, description@));
        }
        Ok(())
    }

    /// The full collection as `(displayIndex, description, completed)` rows,
    /// in storage order, with display indices `1..=len`.
    pub fn list_tasks(&self) -> (r: Vec<(usize, String, bool)>)
        ensures
            r@.len() == self@.len(),
            forall|i: int|
                0 <= i < self@.len() ==> {
                    &&& (#[trigger] r@[i]).0 == i + 1
                    &&& r@[i].1@ == self@[i].description
                    &&& r@[i].2 == self@[i].completed
                },
    {
        let mut out: Vec<(usize, String, bool)> = Vec::new();
        let n = self.tasks.len();
        let mut i: usize = 0;
        while i < n
            invariant
                i <= n,
                n == self@.len(),
                n == self.tasks@.len(),
                out@.len() == i,
                forall|k: int|
                    0 <= k < i ==> {
                        &&& (#[trigger] out@[k]).0 == k + 1
                        &&& out@[k].1@ == self@[k].description
                        &&& out@[k].2 == self@[k].completed
                    },
            decreases n - i,
        {
            let description = self.tasks[i].description.clone();
            let completed = self.tasks[i].completed;
            out.push((i + 1, description, completed));
            i = i + 1;
        }
        out
    }

    /// Replaces the description at display index `index`; the completion
    /// flag there, and every other element, are untouched. An out-of-range
    /// index or an empty description is refused and nothing changes.
    pub fn edit_task(&mut self, index: usize, new_description: String) -> (r: Result<
        (),
        TaskError,
    >)
        ensures
            !index_ok(old(self)@, index) ==> r == Err::<(), TaskError>(TaskError::InvalidIndex)
                && final(self)@ == old(self)@,
            index_ok(old(self)@, index) && new_description@.len() == 0 ==> r == Err::<
                (),
                TaskError,
            >(TaskError::InvalidInput) && final(self)@ == old(self)@,
            index_ok(old(self)@, index) && new_description@.len() > 0 ==> r == Ok::<
                (),
                TaskError,
            >(()) && final(self)@ == edit_spec(old(self)@, index, new_description@),
    {
        if index == 0 || index > self.tasks.len() {
            return Err(TaskError::InvalidIndex);
        }
        if new_description.as_str().unicode_len() == 0 {
            return Err(TaskError::InvalidInput);
        }
        let old_task = self.tasks.remove(index - 1);
        self.tasks.insert(
            index - 1,
            Task { description: new_description, completed: old_task.completed },
        );
        proof {
            assert(self@ =~= edit_spec(old(self)@, index, new_description@));
        }
        Ok(())
    }

    /// Deletes the element at display index `index`; all later elements
    /// shift down by one. An out-of-range index is refused and nothing
    /// changes.
    pub fn remove_task(&mut self, index: usize) -> (r: Result<(), TaskError>)
        ensures
            !index_ok(old(self)@, index) ==> r == Err::<(), TaskError>(TaskError::InvalidIndex)
                && final(self)@ == old(self)@,
            index_ok(old(self)@, index) ==> r == Ok::<(), TaskError>(()) && final(self)@ == remove_spec(
                old(self)@,
                index,
            ),
    {
        if index == 0 || index > self.tasks.len() {
            return Err(TaskError::InvalidIndex);
        }
        self.tasks.remove(index - 1);
        proof {
            assert(self@ =~= remove_spec(old(self)@, index));
        }
        Ok(())
    }

    /// Sets `completed` to true at display index `index`, unconditionally
    /// (not a toggle). An out-of-range index is refused and nothing changes.
    pub fn complete_task(&mut self, index: usize) -> (r: Result<(), TaskError>)
        ensures
            !index_ok(old(self)@, index) ==> r == Err::<(), TaskError>(TaskError::InvalidIndex)
                && final(self)@ == old(self)@,
            index_ok(old(self)@, index) ==> r == Ok::<(), TaskError>(()) && final(self)@ == complete_spec(
                old(self)@,
                index,
            ),
    {
        if index == 0 || index > self.tasks.len() {
            return Err(TaskError::InvalidIndex);
        }
        let old_task = self.tasks.remove(index - 1);
        self.tasks.insert(index - 1, Task { description: old_task.description, completed: true });
        proof {
            assert(self@ =~= complete_spec(old(self)@, index));
        }
        Ok(())
    }
}

// ===== laws of the operations =====

/// The collection reached from empty by adding descriptions `ds` in turn.
pub open spec fn added_all(ds: Seq<Seq<char>>) -> Seq<TaskView>
    decreases ds.len(),
{
    if ds.len() == 0 {
        Seq::<TaskView>::empty()
    } else {
        add_spec(added_all(ds.drop_last()), ds.last())
    }
}

/// Adding descriptions `d1..dn` to an empty collection yields them in the
/// same order, each uncompleted; with `list_tasks`, whose rows carry display
/// index `position + 1`, they list at display indices `1..n`.
pub proof fn lemma_adds_list_in_order(ds: Seq<Seq<char>>)
    ensures
        added_all(ds).len() == ds.len(),
        forall|k: int|
            0 <= k < ds.len() ==> (#[trigger] added_all(ds)[k]).description == ds[k] && added_all(
                ds,
            )[k].completed == false,
    decreases ds.len(),
{
    if ds.len() > 0 {
        lemma_adds_list_in_order(ds.drop_last());
        assert(forall|k: int| 0 <= k < ds.len() - 1 ==> #[trigger] ds.drop_last()[k] == ds[k]);
        assert(forall|k: int|
            0 <= k < ds.len() - 1 ==> #[trigger] added_all(ds)[k] == added_all(ds.drop_last())[k]);
    }
}

/// Removing display index `k` shifts every later record down one position
/// and keeps every earlier record in place; the collection is one shorter.
pub proof fn lemma_remove_shifts(s: Seq<TaskView>, k: usize)
    requires
        index_ok(s, k),
    ensures
        remove_spec(s, k).len() == s.len() - 1,
        forall|m: int| 0 <= m < k - 1 ==> #[trigger] remove_spec(s, k)[m] == s[m],
        forall|m: int| k - 1 <= m < s.len() - 1 ==> #[trigger] remove_spec(s, k)[m] == s[m + 1],
{
}

/// If no other record shares the removed record's description, that
/// description appears at no position after the removal.
pub proof fn lemma_remove_drops_description(s: Seq<TaskView>, k: usize)
    requires
        index_ok(s, k),
        forall|n: int|
            0 <= n < s.len() && n != k - 1 ==> (#[trigger] s[n]).description != s[k
                - 1].description,
    ensures
        forall|m: int|
            0 <= m < remove_spec(s, k).len() ==> (#[trigger] remove_spec(s, k)[m]).description
                != s[k - 1].description,
{
    lemma_remove_shifts(s, k);
}

/// Editing display index `k` changes only that record's description: its
/// completion flag, and every other record, are unchanged.
pub proof fn lemma_edit_is_local(s: Seq<TaskView>, k: usize, d: Seq<char>)
    requires
        index_ok(s, k),
    ensures
        edit_spec(s, k, d).len() == s.len(),
        edit_spec(s, k, d)[k - 1].description == d,
        edit_spec(s, k, d)[k - 1].completed == s[k - 1].completed,
        forall|m: int| 0 <= m < s.len() && m != k - 1 ==> #[trigger] edit_spec(s, k, d)[m] == s[m],
{
}

/// Completing a task is idempotent: completing display index `k` twice
/// leaves the same collection as completing it once.
pub proof fn lemma_complete_idempotent(s: Seq<TaskView>, k: usize)
    requires
        index_ok(s, k),
    ensures
        complete_spec(complete_spec(s, k), k) == complete_spec(s, k),
{
    assert(complete_spec(complete_spec(s, k), k) =~= complete_spec(s, k));
}

} // verus!
