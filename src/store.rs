//! The task list: three partitions of tasks and the operations that move
//! tasks between them.
use crate::stamp::Stamp;
use crate::task::{DateTimeOption, Task, TaskError, TaskStatus, TaskView};
use vstd::prelude::*;

verus! {

/// All tasks, held in three partitions in the order they arrived.
pub struct Tasks {
    pub active: Vec<Task>,
    pub completed: Vec<Task>,
    pub deleted: Vec<Task>,
}

pub ghost struct TasksView {
    pub active: Seq<TaskView>,
    pub completed: Seq<TaskView>,
    pub deleted: Seq<TaskView>,
}

pub open spec fn views(v: Seq<Task>) -> Seq<TaskView> {
    v.map_values(|t: Task| t@)
}

impl View for Tasks {
    type V = TasksView;

    open spec fn view(&self) -> TasksView {
        TasksView {
            active: views(self.active@),
            completed: views(self.completed@),
            deleted: views(self.deleted@),
        }
    }
}

/// The largest ID in `s`, or 0 when none is larger.
pub open spec fn max_id(s: Seq<TaskView>) -> int
    decreases s.len(),
{
    if s.len() == 0 {
        0
    } else {
        let m = max_id(s.drop_last());
        if s.last().id > m {
            s.last().id as int
        } else {
            m
        }
    }
}

/// `s` holds a task with ID `id`.
pub open spec fn has_id(s: Seq<TaskView>, id: i32) -> bool {
    exists|j: int| 0 <= j < s.len() && #[trigger] s[j].id == id
}

/// `i` is the first position in `s` of a task with ID `id`.
pub open spec fn is_first_index(s: Seq<TaskView>, id: i32, i: int) -> bool {
    0 <= i < s.len() && s[i].id == id && forall|j: int| 0 <= j < i ==> #[trigger] s[j].id != id
}

/// The first position in `s` of a task with ID `id`, when there is one.
pub open spec fn first_index(s: Seq<TaskView>, id: i32) -> int {
    choose|i: int| is_first_index(s, id, i)
}

/// No two tasks of `s` share an ID.
pub open spec fn distinct_ids(s: Seq<TaskView>) -> bool {
    forall|i: int, j: int| 0 <= i < s.len() && 0 <= j < s.len() && i != j ==> #[trigger] s[i].id
        != #[trigger] s[j].id
}

/// No task of `s` shares an ID with a task of `t`.
pub open spec fn disjoint_ids(s: Seq<TaskView>, t: Seq<TaskView>) -> bool {
    forall|i: int, j: int| 0 <= i < s.len() && 0 <= j < t.len() ==> #[trigger] s[i].id
        != #[trigger] t[j].id
}

/// `t` finished at `now`.
pub open spec fn completed_view(t: TaskView, now: Stamp) -> TaskView {
    TaskView { status: TaskStatus::Completed, finished: DateTimeOption::DateTime(now), ..t }
}

/// `t` deleted.
pub open spec fn deleted_view(t: TaskView) -> TaskView {
    TaskView { status: TaskStatus::Deleted, ..t }
}

/// `u` is `t` with the first active task with ID `id` finished at `now` and
/// moved to the end of `completed`.
pub open spec fn completes(t: TasksView, u: TasksView, id: i32, now: Stamp) -> bool {
    let i = first_index(t.active, id);
    &&& is_first_index(t.active, id, i)
    &&& u.active == t.active.remove(i)
    &&& u.completed == t.completed.push(completed_view(t.active[i], now))
    &&& u.deleted == t.deleted
}

/// `u` is `t` with the first active task with ID `id` marked deleted and moved
/// to the end of `deleted`.
pub open spec fn deletes(t: TasksView, u: TasksView, id: i32) -> bool {
    let i = first_index(t.active, id);
    &&& is_first_index(t.active, id, i)
    &&& u.active == t.active.remove(i)
    &&& u.completed == t.completed
    &&& u.deleted == t.deleted.push(deleted_view(t.active[i]))
}

/// `u` is `t` with the first task with ID `id` renamed to `name` at `now`.
pub open spec fn renames(t: Seq<TaskView>, u: Seq<TaskView>, id: i32, name: Seq<char>, now: Stamp) -> bool {
    let i = first_index(t, id);
    &&& is_first_index(t, id, i)
    &&& u == t.update(i, TaskView { name, modified: now, ..t[i] })
}

impl TasksView {
    /// The largest ID over the three partitions, or 0.
    pub open spec fn last_id(self) -> int {
        let a = max_id(self.active);
        let c = max_id(self.completed);
        let d = max_id(self.deleted);
        let m = if a > c {
            a
        } else {
            c
        };
        if m > d {
            m
        } else {
            d
        }
    }

    /// The ID that the next new task gets.
    pub open spec fn next_id(self) -> int {
        self.last_id() + 1
    }

    /// IDs are unique over the union of the three partitions.
    pub open spec fn ids_distinct(self) -> bool {
        &&& distinct_ids(self.active)
        &&& distinct_ids(self.completed)
        &&& distinct_ids(self.deleted)
        &&& disjoint_ids(self.active, self.completed)
        &&& disjoint_ids(self.active, self.deleted)
        &&& disjoint_ids(self.completed, self.deleted)
    }

    /// Each task's status and finish time agree with the partition that holds it.
    pub open spec fn statuses_match(self) -> bool {
        &&& forall|i: int|
            0 <= i < self.active.len() ==> (#[trigger] self.active[i]).status == TaskStatus::Active
                && self.active[i].finished == DateTimeOption::Unset
        &&& forall|i: int|
            0 <= i < self.completed.len() ==> (#[trigger] self.completed[i]).status
                == TaskStatus::Completed && self.completed[i].finished is DateTime
        &&& forall|i: int|
            0 <= i < self.deleted.len() ==> (#[trigger] self.deleted[i]).status
                == TaskStatus::Deleted && self.deleted[i].finished == DateTimeOption::Unset
    }
}

pub proof fn lemma_max_id(s: Seq<TaskView>)
    ensures
        max_id(s) >= 0,
        forall|i: int| 0 <= i < s.len() ==> (#[trigger] s[i]).id <= max_id(s),
        max_id(s) <= i32::MAX,
    decreases s.len(),
{
    if s.len() > 0 {
        lemma_max_id(s.drop_last());
        assert forall|i: int| 0 <= i < s.len() implies (#[trigger] s[i]).id <= max_id(s) by {
            if i < s.len() - 1 {
                assert(s[i] == s.drop_last()[i]);
            }
        }
    }
}

/// Every task in the three partitions has an ID below `next_id`, and
/// `next_id` is at least 1.
pub proof fn lemma_next_id_exceeds_all(t: TasksView)
    ensures
        t.next_id() >= 1,
        forall|i: int| 0 <= i < t.active.len() ==> (#[trigger] t.active[i]).id < t.next_id(),
        forall|i: int| 0 <= i < t.completed.len() ==> (#[trigger] t.completed[i]).id < t.next_id(),
        forall|i: int| 0 <= i < t.deleted.len() ==> (#[trigger] t.deleted[i]).id < t.next_id(),
{
    lemma_max_id(t.active);
    lemma_max_id(t.completed);
    lemma_max_id(t.deleted);
}

/// The largest task ID in `tasks`, or 0 when there is none above 0.
fn ret_last_id(tasks: &Vec<Task>) -> (r: i32)
    ensures
        r == max_id(views(tasks@)),
{
    let mut m: i32 = 0;
    let mut i: usize = 0;
    while i < tasks.len()
        invariant
            i <= tasks@.len(),
            m == max_id(views(tasks@).subrange(0, i as int)),
        decreases tasks@.len() - i,
    {
        proof {
            let s = views(tasks@).subrange(0, i + 1);
            assert(s.drop_last() =~= views(tasks@).subrange(0, i as int));
            assert(s.last() == tasks@[i as int]@);
        }
        if tasks[i].id > m {
            m = tasks[i].id;
        }
        i = i + 1;
    }
    assert(views(tasks@).subrange(0, tasks@.len() as int) =~= views(tasks@));
    m
}

/// The ID of the most recent task: the largest ID over the three partitions, or 0.
pub fn ret_last_task_id(tasks: &Tasks) -> (r: i32)
    ensures
        r == tasks@.last_id(),
{
    let a = ret_last_id(&tasks.active);
    let c = ret_last_id(&tasks.completed);
    let d = ret_last_id(&tasks.deleted);
    let m = if a > c {
        a
    } else {
        c
    };
    if m > d {
        m
    } else {
        d
    }
}

/// The position of the first task in `active_tasks` with ID `id`, or
/// `NotFound` when there is none.
pub fn extract_task(active_tasks: &Vec<Task>, id: i32) -> (r: Result<usize, TaskError>)
    ensures
        match r {
            Ok(i) => is_first_index(views(active_tasks@), id, i as int) && i as int == first_index(
                views(active_tasks@),
                id,
            ),
            Err(e) => e == TaskError::NotFound && !has_id(views(active_tasks@), id),
        },
{
    let ghost s = views(active_tasks@);
    let mut i: usize = 0;
    while i < active_tasks.len()
        invariant
            i <= active_tasks@.len(),
            s == views(active_tasks@),
            forall|j: int| 0 <= j < i ==> #[trigger] s[j].id != id,
        decreases active_tasks@.len() - i,
    {
        if active_tasks[i].id == id {
            proof {
                assert(is_first_index(s, id, i as int));
                let k = first_index(s, id);
                assert(is_first_index(s, id, k));
                if k < i {
                    assert(s[k].id != id);
                } else if k > i {
                    assert(s[i as int].id != id);
                }
            }
            return Ok(i);
        }
        i = i + 1;
    }
    Err(TaskError::NotFound)
}

proof fn lemma_views_remove(v: Seq<Task>, i: int)
    requires
        0 <= i < v.len(),
    ensures
        views(v.remove(i)) == views(v).remove(i),
{
    assert(views(v.remove(i)) =~= views(v).remove(i));
}

proof fn lemma_views_push(v: Seq<Task>, t: Task)
    ensures
        views(v.push(t)) == views(v).push(t@),
{
    assert(views(v.push(t)) =~= views(v).push(t@));
}

/// The task at `j` of `a` with the one at `k` taken out comes from `a`, at a
/// position other than `k`.
proof fn lemma_removed_at(a: Seq<TaskView>, k: int, j: int)
    requires
        0 <= k < a.len(),
        0 <= j < a.len() - 1,
    ensures
        a.remove(k)[j] == a[if j < k {
            j
        } else {
            j + 1
        }],
{
}

/// Moving the task at `k` out of `active`, as `x` with the same ID, onto the
/// end of `completed` (or of `deleted`) keeps IDs unique.
proof fn lemma_move_keeps_distinct(
    t: TasksView,
    u: TasksView,
    k: int,
    x: TaskView,
    to_completed: bool,
)
    requires
        t.ids_distinct(),
        0 <= k < t.active.len(),
        x.id == t.active[k].id,
        u.active == t.active.remove(k),
        to_completed ==> u.completed == t.completed.push(x) && u.deleted == t.deleted,
        !to_completed ==> u.deleted == t.deleted.push(x) && u.completed == t.completed,
    ensures
        u.ids_distinct(),
{
    let a = t.active;
    let (from, other) = if to_completed {
        (t.completed, t.deleted)
    } else {
        (t.deleted, t.completed)
    };
    let grown = from.push(x);
    assert(disjoint_ids(a, from) && disjoint_ids(a, other));
    assert(disjoint_ids(from, other) || disjoint_ids(other, from));
    assert forall|i: int, j: int|
        0 <= i < u.active.len() && 0 <= j < u.active.len() && i != j implies #[trigger] u.active[i].id
        != #[trigger] u.active[j].id by {
        lemma_removed_at(a, k, i);
        lemma_removed_at(a, k, j);
    }
    assert forall|i: int, j: int|
        0 <= i < grown.len() && 0 <= j < grown.len() && i != j implies #[trigger] grown[i].id
        != #[trigger] grown[j].id by {
        if i < from.len() && j < from.len() {
            assert(grown[i] == from[i] && grown[j] == from[j]);
        } else if i < from.len() {
            assert(grown[i] == from[i]);
            assert(a[k].id != from[i].id);
        } else if j < from.len() {
            assert(grown[j] == from[j]);
            assert(a[k].id != from[j].id);
        }
    }
    assert forall|i: int, j: int| 0 <= i < u.active.len() && 0 <= j < grown.len() implies #[trigger] u.active[i].id
        != #[trigger] grown[j].id by {
        lemma_removed_at(a, k, i);
        if j < from.len() {
            assert(grown[j] == from[j]);
        }
    }
    assert forall|i: int, j: int| 0 <= i < u.active.len() && 0 <= j < other.len() implies #[trigger] u.active[i].id
        != #[trigger] other[j].id by {
        lemma_removed_at(a, k, i);
    }
    assert forall|i: int, j: int| 0 <= i < grown.len() && 0 <= j < other.len() implies #[trigger] grown[i].id
        != #[trigger] other[j].id by {
        if i < from.len() {
            assert(grown[i] == from[i]);
            if !disjoint_ids(from, other) {
                assert(other[j].id != from[i].id);
            }
        } else {
            assert(a[k].id != other[j].id);
        }
    }
    if to_completed {
        assert(disjoint_ids(grown, other));
    } else {
        assert forall|i: int, j: int| 0 <= i < other.len() && 0 <= j < grown.len() implies #[trigger] other[i].id
            != #[trigger] grown[j].id by {
            assert(grown[j].id != other[i].id);
        }
    }
}

/// After a move of the task at `k`, whose ID is `id`, out of `active` onto the
/// end of `completed` (or of `deleted`), under unique IDs no other task has
/// that ID.
proof fn lemma_moved_id_gone(
    t: TasksView,
    u: TasksView,
    k: int,
    id: i32,
    x: TaskView,
    to_completed: bool,
)
    requires
        t.ids_distinct(),
        is_first_index(t.active, id, k),
        u.active == t.active.remove(k),
        to_completed ==> u.completed == t.completed.push(x) && u.deleted == t.deleted,
        !to_completed ==> u.deleted == t.deleted.push(x) && u.completed == t.completed,
    ensures
        !has_id(u.active, id),
        to_completed ==> !has_id(u.deleted, id) && !has_id(u.completed.drop_last(), id),
        !to_completed ==> !has_id(u.completed, id) && !has_id(u.deleted.drop_last(), id),
{
    let a = t.active;
    assert forall|j: int| 0 <= j < u.active.len() implies #[trigger] u.active[j].id != id by {
        lemma_removed_at(a, k, j);
    }
    assert forall|j: int| 0 <= j < t.completed.len() implies #[trigger] t.completed[j].id
        != id by {
        assert(a[k].id != t.completed[j].id);
    }
    assert forall|j: int| 0 <= j < t.deleted.len() implies #[trigger] t.deleted[j].id != id by {
        assert(a[k].id != t.deleted[j].id);
    }
    if to_completed {
        assert(u.completed.drop_last() =~= t.completed);
    } else {
        assert(u.deleted.drop_last() =~= t.deleted);
    }
}

/// A move of the active task at `k` to the end of `completed`, finished, or of
/// `deleted`, keeps statuses in line with partitions.
proof fn lemma_statuses_after_move(t: TasksView, u: TasksView, k: int)
    requires
        t.statuses_match(),
        0 <= k < t.active.len(),
        u.active == t.active.remove(k),
        (u.deleted == t.deleted && exists|now: Stamp|
            u.completed == t.completed.push(#[trigger] completed_view(t.active[k], now))) || (
        u.completed == t.completed && u.deleted == t.deleted.push(deleted_view(t.active[k]))),
    ensures
        u.statuses_match(),
{
    let a = t.active;
    assert forall|j: int| 0 <= j < u.active.len() implies (#[trigger] u.active[j]).status
        == TaskStatus::Active && u.active[j].finished == DateTimeOption::Unset by {
        if j < k {
            assert(u.active[j] == a[j]);
        } else {
            assert(u.active[j] == a[j + 1]);
        }
    }
    assert forall|j: int| 0 <= j < u.completed.len() implies (#[trigger] u.completed[j]).status
        == TaskStatus::Completed && u.completed[j].finished is DateTime by {
        if j < t.completed.len() {
            assert(u.completed[j] == t.completed[j]);
        }
    }
    assert forall|j: int| 0 <= j < u.deleted.len() implies (#[trigger] u.deleted[j]).status
        == TaskStatus::Deleted && u.deleted[j].finished == DateTimeOption::Unset by {
        if j < t.deleted.len() {
            assert(u.deleted[j] == t.deleted[j]);
        }
    }
}

/// Marks the first active task with ID `id` as completed at `now`, and moves it
/// from `active` to the end of `completed`. `NotFound`, with nothing changed,
/// when no active task has that ID.
pub fn check(tasks: &mut Tasks, id: i32, now: Stamp) -> (r: Result<(), TaskError>)
    ensures
        match r {
            Err(e) => e == TaskError::NotFound && !has_id(old(tasks)@.active, id) && final(tasks)@
                == old(tasks)@,
            Ok(()) => completes(old(tasks)@, final(tasks)@, id, now),
        },
        old(tasks)@.ids_distinct() ==> final(tasks)@.ids_distinct(),
        old(tasks)@.ids_distinct() && r is Ok ==> !has_id(final(tasks)@.active, id) && !has_id(
            final(tasks)@.deleted,
            id,
        ) && final(tasks)@.completed.last().id == id && !has_id(
            final(tasks)@.completed.drop_last(),
            id,
        ),
        old(tasks)@.statuses_match() ==> final(tasks)@.statuses_match(),
        final(tasks)@.next_id() == old(tasks)@.next_id(),
{
    let i = match extract_task(&tasks.active, id) {
        Ok(i) => i,
        Err(e) => return Err(e),
    };
    let ghost t0 = tasks@;
    proof {
        lemma_views_remove(tasks.active@, i as int);
    }
    let mut t = tasks.active.remove(i);
    t.status = TaskStatus::Completed;
    t.time_finished = DateTimeOption::DateTime(now);
    proof {
        lemma_views_push(tasks.completed@, t);
    }
    tasks.completed.push(t);
    proof {
        let t1 = tasks@;
        let k = i as int;
        lemma_last_id_of_move(t0, t1, k, completed_view(t0.active[k], now));
        assert(t1.completed.drop_last() =~= t0.completed);
        let x = completed_view(t0.active[k], now);
        if t0.ids_distinct() {
            lemma_move_keeps_distinct(t0, t1, k, x, true);
            lemma_moved_id_gone(t0, t1, k, id, x, true);
        }
        if t0.statuses_match() {
            lemma_statuses_after_move(t0, t1, k);
        }
    }
    Ok(())
}

proof fn lemma_max_id_attained(s: Seq<TaskView>)
    ensures
        max_id(s) == 0 || exists|i: int| 0 <= i < s.len() && #[trigger] s[i].id == max_id(s),
    decreases s.len(),
{
    if s.len() > 0 {
        let p = s.drop_last();
        lemma_max_id_attained(p);
        if max_id(s) != 0 && max_id(s) == max_id(p) {
            let i = choose|i: int| 0 <= i < p.len() && #[trigger] p[i].id == max_id(p);
            assert(s[i] == p[i]);
        } else if max_id(s) != 0 {
            assert(s[s.len() - 1].id == max_id(s));
        }
    }
}

/// Every ID of `t` below or equal to `bound` makes `t.last_id()` at most `bound`.
proof fn lemma_last_id_at_most(t: TasksView, bound: int)
    requires
        bound >= 0,
        forall|i: int| 0 <= i < t.active.len() ==> (#[trigger] t.active[i]).id <= bound,
        forall|i: int| 0 <= i < t.completed.len() ==> (#[trigger] t.completed[i]).id <= bound,
        forall|i: int| 0 <= i < t.deleted.len() ==> (#[trigger] t.deleted[i]).id <= bound,
    ensures
        t.last_id() <= bound,
{
    lemma_max_id_attained(t.active);
    lemma_max_id_attained(t.completed);
    lemma_max_id_attained(t.deleted);
}

/// Moving the task at `k` out of `active`, as `x` with the same ID, onto the end
/// of `completed` or `deleted` keeps the largest ID.
proof fn lemma_last_id_of_move(t: TasksView, u: TasksView, k: int, x: TaskView)
    requires
        0 <= k < t.active.len(),
        x.id == t.active[k].id,
        u.active == t.active.remove(k),
        (u.completed == t.completed.push(x) && u.deleted == t.deleted) || (u.deleted
            == t.deleted.push(x) && u.completed == t.completed),
    ensures
        u.last_id() == t.last_id(),
{
    let a = t.active;
    lemma_next_id_exceeds_all(t);
    lemma_next_id_exceeds_all(u);
    assert forall|i: int| 0 <= i < u.active.len() implies (#[trigger] u.active[i]).id
        <= t.last_id() by {
        if i < k {
            assert(u.active[i] == a[i]);
        } else {
            assert(u.active[i] == a[i + 1]);
        }
    }
    assert forall|i: int| 0 <= i < u.completed.len() implies (#[trigger] u.completed[i]).id
        <= t.last_id() by {
        if i < t.completed.len() {
            assert(u.completed[i] == t.completed[i]);
        }
    }
    assert forall|i: int| 0 <= i < u.deleted.len() implies (#[trigger] u.deleted[i]).id
        <= t.last_id() by {
        if i < t.deleted.len() {
            assert(u.deleted[i] == t.deleted[i]);
        }
    }
    lemma_last_id_at_most(u, t.last_id());
    assert forall|i: int| 0 <= i < a.len() implies (#[trigger] a[i]).id <= u.last_id() by {
        if i < k {
            assert(u.active[i] == a[i]);
        } else if i > k {
            assert(u.active[i - 1] == a[i]);
        } else if u.completed == t.completed.push(x) {
            assert(u.completed[t.completed.len() as int] == x);
        } else {
            assert(u.deleted[t.deleted.len() as int] == x);
        }
    }
    assert forall|i: int| 0 <= i < t.completed.len() implies (#[trigger] t.completed[i]).id
        <= u.last_id() by {
        assert(u.completed[i] == t.completed[i]);
    }
    assert forall|i: int| 0 <= i < t.deleted.len() implies (#[trigger] t.deleted[i]).id
        <= u.last_id() by {
        assert(u.deleted[i] == t.deleted[i]);
    }
    lemma_last_id_at_most(t, u.last_id());
}

/// Marks the first active task with ID `id` as deleted, and moves it from
/// `active` to the end of `deleted`; its finish time stays unset. `NotFound`,
/// with nothing changed, when no active task has that ID.
pub fn delete(tasks: &mut Tasks, id: i32) -> (r: Result<(), TaskError>)
    ensures
        match r {
            Err(e) => e == TaskError::NotFound && !has_id(old(tasks)@.active, id) && final(tasks)@
                == old(tasks)@,
            Ok(()) => deletes(old(tasks)@, final(tasks)@, id),
        },
        old(tasks)@.ids_distinct() ==> final(tasks)@.ids_distinct(),
        old(tasks)@.ids_distinct() && r is Ok ==> !has_id(final(tasks)@.active, id) && !has_id(
            final(tasks)@.completed,
            id,
        ) && final(tasks)@.deleted.last().id == id && !has_id(
            final(tasks)@.deleted.drop_last(),
            id,
        ),
        old(tasks)@.statuses_match() ==> final(tasks)@.statuses_match(),
        final(tasks)@.next_id() == old(tasks)@.next_id(),
{
    let i = match extract_task(&tasks.active, id) {
        Ok(i) => i,
        Err(e) => return Err(e),
    };
    let ghost t0 = tasks@;
    proof {
        lemma_views_remove(tasks.active@, i as int);
    }
    let mut t = tasks.active.remove(i);
    t.status = TaskStatus::Deleted;
    proof {
        lemma_views_push(tasks.deleted@, t);
    }
    tasks.deleted.push(t);
    proof {
        let t1 = tasks@;
        let k = i as int;
        let x = deleted_view(t0.active[k]);
        lemma_last_id_of_move(t0, t1, k, x);
        assert(t1.deleted.drop_last() =~= t0.deleted);
        if t0.ids_distinct() {
            lemma_move_keeps_distinct(t0, t1, k, x, false);
            lemma_moved_id_gone(t0, t1, k, id, x, false);
        }
        if t0.statuses_match() {
            lemma_statuses_after_move(t0, t1, k);
        }
    }
    Ok(())
}

/// Renames the first task in `active_tasks` with ID `id` to `new_name`, with
/// `now` as its last modification. `NotFound`, with nothing changed, when no
/// task has that ID.
pub fn edit(active_tasks: &mut Vec<Task>, id: i32, new_name: String, now: Stamp) -> (r: Result<
    (),
    TaskError,
>)
    ensures
        match r {
            Err(e) => e == TaskError::NotFound && !has_id(views(old(active_tasks)@), id)
                && final(active_tasks)@ == old(active_tasks)@,
            Ok(()) => renames(
                views(old(active_tasks)@),
                views(final(active_tasks)@),
                id,
                new_name@,
                now,
            ),
        },
{
    let i = match extract_task(active_tasks, id) {
        Ok(i) => i,
        Err(e) => return Err(e),
    };
    let ghost before = views(active_tasks@);
    let mut t = active_tasks.remove(i);
    t.set_at(new_name, now);
    active_tasks.insert(i, t);
    assert(views(active_tasks@) =~= before.update(
        i as int,
        TaskView { name: new_name@, modified: now, ..before[i as int] },
    ));
    Ok(())
}

/// Appends a new active task named `new_task_name` with ID `new_task_id`,
/// created at `now`, to `active_tasks`.
pub fn add(active_tasks: &mut Vec<Task>, new_task_name: String, new_task_id: i32, now: Stamp)
    ensures
        views(final(active_tasks)@) == views(old(active_tasks)@).push(
            TaskView {
                id: new_task_id,
                name: new_task_name@,
                status: TaskStatus::Active,
                created: now,
                modified: now,
                finished: DateTimeOption::Unset,
            },
        ),
{
    let t = Task::new_at(new_task_name, new_task_id, now);
    proof {
        lemma_views_push(active_tasks@, t);
    }
    active_tasks.push(t);
}

impl Tasks {
    /// An empty task list.
    pub fn new() -> (r: Tasks)
        ensures
            r@.active.len() == 0,
            r@.completed.len() == 0,
            r@.deleted.len() == 0,
            r@.ids_distinct(),
            r@.statuses_match(),
            r@.next_id() == 1,
    {
        let r = Tasks { active: Vec::new(), completed: Vec::new(), deleted: Vec::new() };
        assert(r@.active =~= Seq::<TaskView>::empty());
        assert(r@.completed =~= Seq::<TaskView>::empty());
        assert(r@.deleted =~= Seq::<TaskView>::empty());
        r
    }

    /// The ID that the next new task gets: one more than the largest ID over
    /// the three partitions, or 1 when there is none above 0.
    pub fn next_id(&self) -> (r: i64)
        ensures
            r == self@.next_id(),
    {
        ret_last_task_id(self) as i64 + 1
    }

    /// The largest ID over the three partitions, or 0.
    pub fn last_id(&self) -> (r: i32)
        ensures
            r == self@.last_id(),
            r == self@.next_id() - 1,
    {
        ret_last_task_id(self)
    }

    /// Adds a new active task named `name`, created now, with the next ID,
    /// and returns that ID.
    pub fn add(&mut self, name: String) -> (r: i32)
        requires
            old(self)@.next_id() <= i32::MAX,
        ensures
            r == old(self)@.next_id(),
            final(self)@.active.len() == old(self)@.active.len() + 1,
            final(self)@.active.drop_last() == old(self)@.active,
            final(self)@.active.last().id == r,
            final(self)@.active.last().name == name@,
            final(self)@.active.last().status == TaskStatus::Active,
            final(self)@.active.last().finished == DateTimeOption::Unset,
            final(self)@.active.last().created == final(self)@.active.last().modified,
            final(self)@.active.last().created.valid(),
            final(self)@.completed == old(self)@.completed,
            final(self)@.deleted == old(self)@.deleted,
            final(self)@.next_id() == r + 1,
            old(self)@.ids_distinct() ==> final(self)@.ids_distinct(),
            old(self)@.statuses_match() ==> final(self)@.statuses_match(),
    {
        let id = ret_last_task_id(self) + 1;
        let ghost t0 = self@;
        crate::store::add(&mut self.active, name, id, Stamp::now());
        proof {
            let t1 = self@;
            let x = t1.active.last();
            lemma_next_id_exceeds_all(t0);
            assert(t1.active.drop_last() =~= t0.active);
            assert(max_id(t1.active) == id);
            assert forall|i: int| 0 <= i < t1.active.len() implies (#[trigger] t1.active[i]).id
                <= id by {
                if i < t0.active.len() {
                    assert(t1.active[i] == t0.active[i]);
                }
            }
            if t0.ids_distinct() {
                assert forall|i: int, j: int|
                    0 <= i < t1.active.len() && 0 <= j < t1.active.len() && i != j implies #[trigger] t1.active[i].id
                    != #[trigger] t1.active[j].id by {
                    if i < t0.active.len() {
                        assert(t1.active[i] == t0.active[i]);
                    }
                    if j < t0.active.len() {
                        assert(t1.active[j] == t0.active[j]);
                    }
                }
                assert forall|i: int, j: int|
                    0 <= i < t1.active.len() && 0 <= j < t1.completed.len() implies #[trigger] t1.active[i].id
                    != #[trigger] t1.completed[j].id by {
                    if i < t0.active.len() {
                        assert(t1.active[i] == t0.active[i]);
                    }
                }
                assert forall|i: int, j: int|
                    0 <= i < t1.active.len() && 0 <= j < t1.deleted.len() implies #[trigger] t1.active[i].id
                    != #[trigger] t1.deleted[j].id by {
                    if i < t0.active.len() {
                        assert(t1.active[i] == t0.active[i]);
                    }
                }
            }
            if t0.statuses_match() {
                assert forall|i: int| 0 <= i < t1.active.len() implies (#[trigger] t1.active[i]).status
                    == TaskStatus::Active && t1.active[i].finished == DateTimeOption::Unset by {
                    if i < t0.active.len() {
                        assert(t1.active[i] == t0.active[i]);
                    }
                }
            }
        }
        id
    }

    /// Marks the first active task with ID `id` as completed now; see `check`.
    pub fn complete(&mut self, id: i32) -> (r: Result<(), TaskError>)
        ensures
            match r {
                Err(e) => e == TaskError::NotFound && !has_id(old(self)@.active, id) && final(self)@
                    == old(self)@,
                Ok(()) => exists|now: Stamp| now.valid() && #[trigger] completes(old(self)@, final(self)@, id, now),
            },
            old(self)@.ids_distinct() && r is Ok ==> !has_id(final(self)@.active, id) && !has_id(
                final(self)@.deleted,
                id,
            ) && final(self)@.completed.last().id == id && !has_id(
                final(self)@.completed.drop_last(),
                id,
            ),
            old(self)@.ids_distinct() ==> final(self)@.ids_distinct(),
            old(self)@.statuses_match() ==> final(self)@.statuses_match(),
            final(self)@.next_id() == old(self)@.next_id(),
    {
        let now = Stamp::now();
        check(self, id, now)
    }

    /// Renames the first active task with ID `id` to `new_name`, with the
    /// current time as its last modification; see `edit`.
    pub fn rename(&mut self, id: i32, new_name: String) -> (r: Result<(), TaskError>)
        ensures
            match r {
                Err(e) => e == TaskError::NotFound && !has_id(old(self)@.active, id) && final(self)@
                    == old(self)@,
                Ok(()) => exists|now: Stamp| now.valid() && #[trigger] renames(old(self)@.active, final(self)@.active, id, new_name@, now),
            },
            final(self)@.completed == old(self)@.completed,
            final(self)@.deleted == old(self)@.deleted,
    {
        let now = Stamp::now();
        let r = edit(&mut self.active, id, new_name, now);
        proof {
            if r is Err {
                assert(self.active@ == old(self).active@);
                assert(self@ == old(self)@);
            } else {
                assert(renames(old(self)@.active, self@.active, id, new_name@, now));
            }
        }
        r
    }
}

} // verus!
