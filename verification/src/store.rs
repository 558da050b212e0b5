use vstd::prelude::*;

use crate::clock::{clamp_timestamp, now_unix_seconds};
use crate::codec::{chars_to_string, doc_matches, parse_doc, push_task, task_doc, tasks_doc};
use crate::codec::{lemma_tasks_doc_last, lemma_tasks_doc_snoc};
use crate::task::{views_of, wf_task, Task, TaskModel};

verus! {

/// What can go wrong around the store. Absence of a task is never an error:
/// `complete_task` and `delete_task` answer it with `false`.
#[derive(Debug, Clone, Copy, PartialEq, Eq, Structural)]
pub enum TodoError {
    /// The backing location could not be read or written. The store itself
    /// never raises this: the caller that moves documents to and from disk
    /// reports it.
    IOFailure,
    /// The backing location held text that is not a task document.
    DataCorruption,
}

/// Mathematical value of the whole store.
pub ghost struct StoreModel {
    pub tasks: Seq<TaskModel>,
    pub next_id: u64,
}

/// The store a fresh location starts from: no tasks, identifiers from 1.
pub open spec fn empty_store() -> StoreModel {
    StoreModel { tasks: Seq::empty(), next_id: 1 }
}

/// Some task of `tasks` carries the identifier `id`.
pub open spec fn contains_id(tasks: Seq<TaskModel>, id: u64) -> bool {
    exists|i: int| 0 <= i < tasks.len() && tasks[i].id == id
}

/// Identifiers strictly ascend along the sequence; this also makes them
/// pairwise distinct.
pub open spec fn sorted_by_id(tasks: Seq<TaskModel>) -> bool {
    forall|i: int, j: int| 0 <= i < j < tasks.len() ==> tasks[i].id < tasks[j].id
}

/// A sequence of tasks as the store holds and lists them: identifiers
/// positive, strictly ascending, and small enough that a successor counter
/// exists.
pub open spec fn wf_task_seq(tasks: Seq<TaskModel>) -> bool {
    &&& sorted_by_id(tasks)
    &&& forall|i: int| 0 <= i < tasks.len() ==> wf_task(#[trigger] tasks[i])
}

/// The store's invariant: its tasks are well formed and every identifier
/// ever assigned lies strictly below `next_id`.
pub open spec fn wf_store(s: StoreModel) -> bool {
    &&& wf_task_seq(s.tasks)
    &&& forall|i: int| 0 <= i < s.tasks.len() ==> (#[trigger] s.tasks[i]).id < s.next_id
    &&& s.next_id >= 1
}

/// The counter a store reconstructed from its tasks alone starts from: one
/// past the largest identifier present, or 1 for an empty set.
pub open spec fn next_of(tasks: Seq<TaskModel>) -> u64 {
    if tasks.len() == 0 {
        1u64
    } else {
        (tasks.last().id + 1) as u64
    }
}

/// `t` with its completion flag raised.
pub open spec fn mark_done(t: TaskModel) -> TaskModel {
    TaskModel { completed: true, ..t }
}

/// What `add_task` does: the new task takes the current `next_id`, starts
/// uncompleted, goes to the end of the list, and the counter moves up by
/// exactly one.
pub open spec fn add_tr(s: StoreModel, description: Seq<char>, created_at: u64) -> (StoreModel,
    TaskModel) {
    let t = TaskModel { id: s.next_id, description, completed: false, created_at };
    (StoreModel { tasks: s.tasks.push(t), next_id: (s.next_id + 1) as u64 }, t)
}

/// What `complete_task` does: the task carrying `id`, if any, has its flag
/// raised; every other task and the counter stay as they were. The answer
/// says whether such a task existed.
pub open spec fn complete_tr(s: StoreModel, id: u64) -> (StoreModel, bool) {
    (
        StoreModel {
            tasks: s.tasks.map_values(|t: TaskModel| if t.id == id { mark_done(t) } else { t }),
            next_id: s.next_id,
        },
        contains_id(s.tasks, id),
    )
}

/// The position of the task carrying `id`; meaningful only where
/// `contains_id` holds (under `sorted_by_id` it is then unique).
pub open spec fn idx_of_id(tasks: Seq<TaskModel>, id: u64) -> int {
    choose|i: int| 0 <= i < tasks.len() && tasks[i].id == id
}

/// What `delete_task` does: the task carrying `id`, if any, leaves the list;
/// the counter never moves, so the identifier is never handed out again.
pub open spec fn delete_tr(s: StoreModel, id: u64) -> (StoreModel, bool) {
    if contains_id(s.tasks, id) {
        (StoreModel { tasks: s.tasks.remove(idx_of_id(s.tasks, id)), next_id: s.next_id }, true)
    } else {
        (s, false)
    }
}

/// The task collection with its identifier counter. Construction and the
/// persistence boundary live beside the document codec: the store itself
/// only ever changes memory, and callers write the document it renders.
pub struct TodoList {
    pub(crate) tasks: Vec<Task>,
    pub(crate) next_id: u64,
}

impl View for TodoList {
    type V = StoreModel;

    closed spec fn view(&self) -> StoreModel {
        StoreModel { tasks: views_of(self.tasks@), next_id: self.next_id }
    }
}

/// The characters of `s`, one by one.
fn str_chars(s: &str) -> (r: Vec<char>)
    ensures
        r@ == s@,
{
    let n = s.unicode_len();
    let mut r: Vec<char> = Vec::new();
    let mut i: usize = 0;
    while i < n
        invariant
            n == s@.len(),
            i <= n,
            r@ == s@.take(i as int),
        decreases n - i,
    {
        let c = s.get_char(i);
        r.push(c);
        proof {
            assert(s@.take(i + 1) =~= s@.take(i as int).push(s@[i as int]));
        }
        i = i + 1;
    }
    proof {
        assert(s@.take(n as int) =~= s@);
    }
    r
}

/// The position of the first task of `tasks` carrying `id`, if any.
fn find_task(tasks: &Vec<Task>, id: u64) -> (r: Option<usize>)
    ensures
        match r {
            Some(i) => i < tasks@.len() && tasks@[i as int]@.id == id,
            None => !contains_id(views_of(tasks@), id),
        },
{
    let n = tasks.len();
    let mut i: usize = 0;
    while i < n
        invariant
            n == tasks@.len(),
            i <= n,
            forall|j: int| 0 <= j < i ==> (#[trigger] tasks@[j])@.id != id,
        decreases n - i,
    {
        if tasks[i].id == id {
            return Some(i);
        }
        i = i + 1;
    }
    assert(forall|j: int| 0 <= j < views_of(tasks@).len() ==> views_of(tasks@)[j]
        == (#[trigger] tasks@[j])@);
    None
}

impl TodoList {
    /// The store's invariant, as callers state it.
    pub open spec fn wf(&self) -> bool {
        wf_store(self@)
    }

    /// A store with no tasks, handing out identifiers from 1: what a missing
    /// or empty backing location yields.
    pub fn new_empty() -> (r: TodoList)
        ensures
            r.wf(),
            r@ == empty_store(),
    {
        let r = TodoList { tasks: Vec::new(), next_id: 1 };
        proof {
            assert(views_of(r.tasks@) =~= Seq::<TaskModel>::empty());
            assert(r@ =~= empty_store());
        }
        r
    }

    /// The whole store rendered as its canonical document: the records of
    /// all tasks in identifier order between brackets. Writing this text to
    /// the backing location and reading it back through `new` yields the
    /// same tasks; a caller that cannot complete the write should discard
    /// the in-memory store rather than report success.
    pub fn to_document(&self) -> (r: String)
        requires
            self.wf(),
        ensures
            r@ == tasks_doc(self@.tasks),
            doc_matches(r@, self@.tasks),
    {
        let n = self.tasks.len();
        let mut out: Vec<char> = Vec::new();
        out.push('[');
        if n == 0 {
            out.push(']');
            proof {
                assert(views_of(self.tasks@) =~= Seq::<TaskModel>::empty());
                assert(out@ =~= tasks_doc(self@.tasks));
            }
            return chars_to_string(out);
        }
        push_task(&mut out, &self.tasks[0]);
        proof {
            let v = views_of(self.tasks@);
            assert(v.take(1) =~= seq![v[0]]);
            assert(seq![v[0]].skip(1) =~= Seq::<TaskModel>::empty());
            assert(tasks_doc(v.take(1)) == seq!['['] + (task_doc(v[0]) + seq![']']));
            assert(out@ =~= tasks_doc(v.take(1)).drop_last());
        }
        let mut i: usize = 1;
        while i < n
            invariant
                self.wf(),
                n == self.tasks@.len(),
                1 <= i <= n,
                out@ == tasks_doc(views_of(self.tasks@).take(i as int)).drop_last(),
            decreases n - i,
        {
            out.push(',');
            push_task(&mut out, &self.tasks[i]);
            proof {
                let v = views_of(self.tasks@);
                assert(v.take(i + 1) =~= v.take(i as int).push(v[i as int]));
                lemma_tasks_doc_snoc(v.take(i as int), v[i as int]);
                lemma_tasks_doc_last(v.take(i as int));
                assert(tasks_doc(v.take(i + 1)).drop_last() =~= tasks_doc(
                    v.take(i as int),
                ).drop_last() + seq![','] + task_doc(v[i as int]));
                assert(out@ =~= tasks_doc(v.take(i + 1)).drop_last());
            }
            i = i + 1;
        }
        out.push(']');
        proof {
            let v = views_of(self.tasks@);
            assert(v.take(n as int) =~= v);
            lemma_tasks_doc_last(v);
            assert(out@ =~= tasks_doc(v));
        }
        chars_to_string(out)
    }

    /// Build a store from what the backing location held: nothing, or an
    /// empty text, starts an empty store counting from 1; the canonical
    /// document of some tasks starts the store that holds exactly those
    /// tasks, counting from one past the largest identifier; any other text
    /// is corruption, never silently discarded.
    pub fn new(contents: Option<&str>) -> (r: Result<TodoList, TodoError>)
        ensures
            match r {
                Ok(store) => {
                    &&& store.wf()
                    &&& match contents {
                        None => store@ == empty_store(),
                        Some(c) => {
                            &&& (c@.len() == 0 ==> store@ == empty_store())
                            &&& (c@.len() > 0 ==> {
                                &&& doc_matches(c@, store@.tasks)
                                &&& store@.next_id == next_of(store@.tasks)
                                &&& forall|s: Seq<TaskModel>|
                                    doc_matches(c@, s) ==> s == store@.tasks
                            })
                        },
                    }
                },
                Err(e) => {
                    &&& e == TodoError::DataCorruption
                    &&& match contents {
                        None => false,
                        Some(c) => c@.len() > 0 && (forall|s: Seq<TaskModel>| !doc_matches(
                            c@,
                            s,
                        )),
                    }
                },
            },
    {
        match contents {
            None => Ok(TodoList::new_empty()),
            Some(c) => {
                let n = c.unicode_len();
                if n == 0 {
                    return Ok(TodoList::new_empty());
                }
                let chars = str_chars(c);
                match parse_doc(&chars) {
                    None => Err(TodoError::DataCorruption),
                    Some(ts) => {
                        let k = ts.len();
                        let next_id: u64 = if k == 0 {
                            1
                        } else {
                            let last = ts[k - 1].id;
                            assert(views_of(ts@)[k - 1].id == last);
                            assert(wf_task(views_of(ts@)[k - 1]));
                            last + 1
                        };
                        let store = TodoList { tasks: ts, next_id };
                        proof {
                            let v = views_of(store.tasks@);
                            assert forall|i: int| 0 <= i < v.len() implies v[i].id
                                < store.next_id by {
                                if i < v.len() - 1 {
                                    assert(v[i].id < v[v.len() - 1].id);
                                }
                            }
                            assert(store@.tasks == v);
                            assert(next_of(v) == store.next_id);
                        }
                        Ok(store)
                    },
                }
            },
        }
    }

    /// Whether another identifier can still be handed out: adding requires
    /// the counter to sit below its machine bound.
    pub fn can_add(&self) -> (r: bool)
        ensures
            r == (self@.next_id < u64::MAX),
    {
        self.next_id < u64::MAX
    }

    /// Add a task with the given text and creation time: it takes the current
    /// `next_id`, starts uncompleted, and the counter moves up by one.
    pub fn add_task_at(&mut self, description: String, created_at: u64) -> (t: Task)
        requires
            old(self).wf(),
            old(self)@.next_id < u64::MAX,
        ensures
            final(self).wf(),
            (final(self)@, t@) == add_tr(old(self)@, description@, created_at),
    {
        let t = Task { id: self.next_id, description, completed: false, created_at };
        let ghost prev = self@;
        self.tasks.push(t.duplicate());
        self.next_id = self.next_id + 1;
        proof {
            assert(views_of(self.tasks@) =~= prev.tasks.push(t@));
            assert(self@ =~= add_tr(prev, t@.description, created_at).0);
        }
        t
    }

    /// Add a task described by the caller, created now: the new task takes
    /// the current `next_id` and starts uncompleted. The creation time comes
    /// from the wall clock, so only the returned task says what it was.
    pub fn add_task(&mut self, description: String) -> (t: Task)
        requires
            old(self).wf(),
            old(self)@.next_id < u64::MAX,
        ensures
            final(self).wf(),
            (final(self)@, t@) == add_tr(old(self)@, description@, t@.created_at),
    {
        let ts = clamp_timestamp(now_unix_seconds());
        self.add_task_at(description, ts)
    }

    /// Every task currently held, in strictly ascending identifier order,
    /// whatever order mutations happened in.
    pub fn list_tasks(&self) -> (r: Vec<Task>)
        requires
            self.wf(),
        ensures
            views_of(r@) == self@.tasks,
            sorted_by_id(views_of(r@)),
    {
        let n = self.tasks.len();
        let mut r: Vec<Task> = Vec::new();
        let mut i: usize = 0;
        while i < n
            invariant
                n == self.tasks@.len(),
                i <= n,
                r@.len() == i,
                forall|j: int| 0 <= j < i ==> (#[trigger] r@[j])@ == self.tasks@[j]@,
            decreases n - i,
        {
            r.push(self.tasks[i].duplicate());
            i = i + 1;
        }
        proof {
            assert(views_of(r@) =~= self@.tasks);
        }
        r
    }

    /// Raise the completion flag of the task carrying `id` and answer true;
    /// answer false and change nothing if no task carries it. The flag never
    /// comes back down: no operation lowers it.
    pub fn complete_task(&mut self, id: u64) -> (r: bool)
        requires
            old(self).wf(),
        ensures
            final(self).wf(),
            (final(self)@, r) == complete_tr(old(self)@, id),
    {
        let ghost prev = self@;
        match find_task(&self.tasks, id) {
            Some(i) => {
                self.tasks[i].completed = true;
                proof {
                    assert(prev.tasks[i as int].id == id);
                    assert(contains_id(prev.tasks, id));
                    assert forall|j: int| 0 <= j < prev.tasks.len() implies views_of(self.tasks@)[j]
                        == complete_tr(prev, id).0.tasks[j] by {
                        if j != i && prev.tasks[j].id == id {
                            assert(false);
                        }
                    }
                    assert(views_of(self.tasks@) =~= complete_tr(prev, id).0.tasks);
                    assert(self@ =~= complete_tr(prev, id).0);
                }
                true
            },
            None => {
                proof {
                    assert forall|j: int| 0 <= j < prev.tasks.len() implies views_of(self.tasks@)[j]
                        == complete_tr(prev, id).0.tasks[j] by {
                        assert(prev.tasks[j].id != id);
                    }
                    assert(views_of(self.tasks@) =~= complete_tr(prev, id).0.tasks);
                    assert(self@ =~= complete_tr(prev, id).0);
                }
                false
            },
        }
    }

    /// Remove the task carrying `id` and answer true; answer false and change
    /// nothing if no task carries it. The counter stays where it was, so a
    /// deleted identifier is never reused.
    pub fn delete_task(&mut self, id: u64) -> (r: bool)
        requires
            old(self).wf(),
        ensures
            final(self).wf(),
            (final(self)@, r) == delete_tr(old(self)@, id),
    {
        let ghost prev = self@;
        match find_task(&self.tasks, id) {
            Some(i) => {
                self.tasks.remove(i);
                proof {
                    assert(prev.tasks[i as int].id == id);
                    assert(contains_id(prev.tasks, id));
                    let k = idx_of_id(prev.tasks, id);
                    assert(0 <= k < prev.tasks.len() && prev.tasks[k].id == id);
                    assert(prev.tasks[i as int].id == id);
                    assert(k == i);
                    assert(views_of(self.tasks@) =~= prev.tasks.remove(i as int));
                    assert(self@ =~= delete_tr(prev, id).0);
                }
                true
            },
            None => {
                proof {
                    assert(self@ =~= delete_tr(prev, id).0);
                }
                false
            },
        }
    }
}

// ---------------------------------------------------------------------------
// Laws: what holds across the operations, stated over the transitions that
// the operations' contracts name.
// ---------------------------------------------------------------------------

/// Consecutive additions hand out identifiers that rise by exactly one, and
/// an empty store hands out 1 first.
pub proof fn lemma_add_ids_sequential(
    s: StoreModel,
    d1: Seq<char>,
    c1: u64,
    d2: Seq<char>,
    c2: u64,
)
    requires
        wf_store(s),
        s.next_id < u64::MAX,
    ensures
        ({
            let (s1, t1) = add_tr(s, d1, c1);
            let (s2, t2) = add_tr(s1, d2, c2);
            &&& t1.id == s.next_id
            &&& t2.id == t1.id + 1
        }),
        add_tr(empty_store(), d1, c1).1.id == 1,
{
}

/// Completing an existing identifier answers true and raises exactly that
/// task's flag where it stands; completing a missing one answers false and
/// leaves the store as it was. No operation ever lowers a flag.
pub proof fn lemma_complete_law(s: StoreModel, id: u64)
    requires
        wf_store(s),
    ensures
        ({
            let (s1, r) = complete_tr(s, id);
            &&& r == contains_id(s.tasks, id)
            &&& s1.next_id == s.next_id
            &&& s1.tasks.len() == s.tasks.len()
            &&& forall|i: int|
                0 <= i < s.tasks.len() ==> s1.tasks[i] == (if s.tasks[i].id == id {
                    mark_done(s.tasks[i])
                } else {
                    s.tasks[i]
                })
            &&& (r ==> exists|i: int|
                0 <= i < s1.tasks.len() && s1.tasks[i].id == id && s1.tasks[i].completed)
            &&& (!r ==> s1 == s)
        }),
{
    let (s1, r) = complete_tr(s, id);
    if r {
        let i = choose|i: int| 0 <= i < s.tasks.len() && s.tasks[i].id == id;
        assert(s1.tasks[i].id == id && s1.tasks[i].completed);
    } else {
        assert forall|i: int| 0 <= i < s.tasks.len() implies s1.tasks[i] == s.tasks[i] by {
            assert(s.tasks[i].id != id);
        }
        assert(s1.tasks =~= s.tasks);
    }
}

/// Deleting an existing identifier answers true and removes exactly that
/// task; a second deletion of the same identifier, or a deletion of a
/// missing one, answers false and leaves the store as it was.
pub proof fn lemma_delete_law(s: StoreModel, id: u64)
    requires
        wf_store(s),
    ensures
        ({
            let (s1, r) = delete_tr(s, id);
            &&& r == contains_id(s.tasks, id)
            &&& s1.next_id == s.next_id
            &&& (r ==> s1.tasks.len() == s.tasks.len() - 1 && !contains_id(s1.tasks, id))
            &&& (r ==> delete_tr(s1, id) == (s1, false))
            &&& (!r ==> s1 == s)
        }),
{
    let (s1, r) = delete_tr(s, id);
    if r {
        let i = idx_of_id(s.tasks, id);
        assert(0 <= i < s.tasks.len() && s.tasks[i].id == id);
        assert forall|j: int| 0 <= j < s1.tasks.len() implies s1.tasks[j].id != id by {
            if j < i {
                assert(s1.tasks[j] == s.tasks[j]);
            } else {
                assert(s1.tasks[j] == s.tasks[j + 1]);
            }
        }
        assert(!contains_id(s1.tasks, id));
    }
}

/// A deleted identifier is never handed out again: deletion and completion
/// leave the counter alone, addition raises it, and an addition after the
/// deletion hands out the counter, which already stood strictly above the
/// deleted identifier.
pub proof fn lemma_deleted_id_not_reused(s: StoreModel, id: u64, d: Seq<char>, c: u64)
    requires
        wf_store(s),
        contains_id(s.tasks, id),
    ensures
        delete_tr(s, id).0.next_id == s.next_id,
        complete_tr(s, id).0.next_id == s.next_id,
        s.next_id < u64::MAX ==> add_tr(s, d, c).0.next_id == s.next_id + 1,
        id < s.next_id,
        add_tr(delete_tr(s, id).0, d, c).1.id == s.next_id,
        add_tr(delete_tr(s, id).0, d, c).1.id != id,
{
    let i = choose|i: int| 0 <= i < s.tasks.len() && s.tasks[i].id == id;
    assert(s.tasks[i].id < s.next_id);
}

} // verus!

