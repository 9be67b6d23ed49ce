//! The set of running tasks that the tray shows, and the tray's title.
use vstd::prelude::*;
use crate::text::{decimal, decimal_text};

verus! {

/// How many tasks may run at the same time.
pub const MAX_RUNNING_TASKS: usize = 3;

/// Running task ids, at most `MAX_RUNNING_TASKS` of them and none twice.
pub open spec fn valid_running(ids: Seq<Seq<char>>) -> bool {
    &&& ids.len() <= MAX_RUNNING_TASKS
    &&& ids.no_duplicates()
}

/// The running ids after `id` has been let run (it was not refused).
pub open spec fn with_task(ids: Seq<Seq<char>>, id: Seq<char>) -> Seq<Seq<char>> {
    if ids.contains(id) {
        ids
    } else {
        ids.push(id)
    }
}

/// The running ids after `id` has stopped: every other id, in order.
pub open spec fn without_task(ids: Seq<Seq<char>>, id: Seq<char>) -> Seq<Seq<char>> {
    ids.filter(other_than(id))
}

/// Holds of every id but `id`.
pub open spec fn other_than(id: Seq<char>) -> spec_fn(Seq<char>) -> bool {
    |x: Seq<char>| x != id
}

/// The message with which a new running task is refused when the tray is full.
pub open spec fn limit_message() -> Seq<char> {
    "Maximum number of concurrent running tasks (3) reached"@
}

/// The ids of the tasks that are running now, in the order in which they started.
pub struct TrayState {
    running_tasks: Vec<String>,
}

impl View for TrayState {
    type V = Seq<Seq<char>>;

    closed spec fn view(&self) -> Seq<Seq<char>> {
        self.running_tasks@.map_values(|s: String| s@)
    }
}

impl TrayState {
    #[verifier::type_invariant]
    closed spec fn inv(self) -> bool {
        valid_running(self@)
    }

    /// A tray with no running task.
    pub fn new() -> (s: Self)
        ensures
            s@ == Seq::<Seq<char>>::empty(),
    {
        let s = TrayState { running_tasks: Vec::new() };
        assert(s@ =~= Seq::<Seq<char>>::empty());
        s
    }

    /// The running task ids, in the order in which they started.
    pub fn running_task_ids(&self) -> (ids: &Vec<String>)
        ensures
            ids@.map_values(|s: String| s@) == self@,
            valid_running(self@),
    {
        proof { use_type_invariant(self); }
        &self.running_tasks
    }

    fn contains_id(&self, id: &String) -> (r: bool)
        ensures
            r == self@.contains(id@),
    {
        let n: usize = self.running_tasks.len();
        let mut i: usize = 0;
        while i < n
            invariant
                n == self.running_tasks@.len(),
                i <= n,
                forall|j: int| 0 <= j < i ==> self@[j] != id@,
            decreases n - i,
        {
            if self.running_tasks[i] == *id {
                assert(self@[i as int] == id@);
                return true;
            }
            i = i + 1;
        }
        assert forall|x: Seq<char>| self@.contains(x) implies x != id@ by {
            let k: int = choose|k: int| 0 <= k < self@.len() && self@[k] == x;
            assert(self@[k] != id@);
        }
        false
    }

    /// Lets `task_id` run. A tray that already holds `MAX_RUNNING_TASKS` ids
    /// refuses, even an id it holds; an id already running is not added twice.
    pub fn add_running_task(&mut self, task_id: String) -> (res: Result<(), String>)
        ensures
            old(self)@.len() >= MAX_RUNNING_TASKS ==> {
                &&& res matches Err(e) && e@ == limit_message()
                &&& final(self)@ == old(self)@
            },
            old(self)@.len() < MAX_RUNNING_TASKS ==> {
                &&& res is Ok
                &&& final(self)@ == with_task(old(self)@, task_id@)
            },
            valid_running(final(self)@),
    {
        proof { use_type_invariant(&*self); }
        if self.running_tasks.len() >= MAX_RUNNING_TASKS {
            return Err("Maximum number of concurrent running tasks (3) reached".to_owned());
        }
        if !self.contains_id(&task_id) {
            let ghost old_view = self@;
            let ghost id = task_id@;
            let mut tasks: Vec<String> = Vec::new();
            std::mem::swap(&mut tasks, &mut self.running_tasks);
            tasks.push(task_id);
            proof {
                assert(tasks@.map_values(|s: String| s@) =~= old_view.push(id));
            }
            self.running_tasks = tasks;
        }
        Ok(())
    }

    /// Stops `task_id`: every other running id stays, in order.
    pub fn remove_running_task(&mut self, task_id: &str) -> (res: Result<(), String>)
        ensures
            res is Ok,
            final(self)@ == without_task(old(self)@, task_id@),
            valid_running(final(self)@),
    {
        proof { use_type_invariant(&*self); }
        let ghost old_view = self@;
        let ghost pred = other_than(task_id@);
        let id: String = task_id.to_owned();
        let n: usize = self.running_tasks.len();
        let mut kept: Vec<String> = Vec::new();
        let mut i: usize = 0;
        while i < n
            invariant
                n == self.running_tasks@.len(),
                old_view == self@,
                id@ == task_id@,
                pred == other_than(task_id@),
                i <= n,
                kept@.map_values(|s: String| s@) == old_view.take(i as int).filter(pred),
            decreases n - i,
        {
            proof {
                assert(old_view.take(i + 1) =~= old_view.take(i as int).push(old_view[i as int]));
                old_view.take(i as int).lemma_filter_push(old_view[i as int], pred);
                assert(old_view[i as int] == self.running_tasks@[i as int]@);
            }
            if !(self.running_tasks[i] == id) {
                let s = self.running_tasks[i].clone();
                kept.push(s);
                proof {
                    assert(kept@.map_values(|s: String| s@) =~= old_view.take(i as int).filter(
                        pred,
                    ).push(old_view[i as int]));
                }
            }
            i = i + 1;
        }
        proof {
            assert(old_view.take(n as int) =~= old_view);
            lemma_filter_keeps_valid(old_view, task_id@);
        }
        self.running_tasks = kept;
        Ok(())
    }

    /// How many tasks run now.
    pub fn get_running_task_count(&self) -> (res: Result<usize, String>)
        ensures
            res == Ok::<usize, String>(self@.len() as usize),
            self@.len() <= MAX_RUNNING_TASKS,
    {
        proof { use_type_invariant(self); }
        Ok(self.running_tasks.len())
    }
}

/// The tray's title for `count` running tasks.
pub open spec fn tray_title_text(count: nat) -> Seq<char> {
    if count == 0 {
        "No tasks running"@
    } else if count == 1 {
        "1 task running"@
    } else {
        decimal(count) + " tasks running"@
    }
}

/// The title the tray shows while `count` tasks run.
pub fn tray_title(count: usize) -> (title: String)
    ensures
        title@ == tray_title_text(count as nat),
{
    if count == 0 {
        "No tasks running".to_owned()
    } else if count == 1 {
        "1 task running".to_owned()
    } else {
        let mut title = decimal_text(count);
        title.append(" tasks running");
        title
    }
}

/// Stopping a task undoes letting it run: after `with_task` then `without_task`
/// of the same id, the running ids are those before, without that id; and
/// where the id was not running, exactly those before.
pub proof fn lemma_add_then_remove(ids: Seq<Seq<char>>, id: Seq<char>)
    requires
        valid_running(ids),
    ensures
        without_task(with_task(ids, id), id) == without_task(ids, id),
        !ids.contains(id) ==> without_task(with_task(ids, id), id) == ids,
{
    let pred = other_than(id);
    if !ids.contains(id) {
        ids.lemma_filter_push(id, pred);
        lemma_without_absent(ids, id);
    }
}

/// Stopping a task that is not running changes nothing.
pub proof fn lemma_without_absent(ids: Seq<Seq<char>>, id: Seq<char>)
    requires
        !ids.contains(id),
    ensures
        without_task(ids, id) == ids,
    decreases ids.len(),
{
    if ids.len() > 0 {
        let rest = ids.drop_last();
        assert(rest.push(ids.last()) =~= ids);
        assert(!rest.contains(id)) by {
            if rest.contains(id) {
                let k: int = choose|k: int| 0 <= k < rest.len() && rest[k] == id;
                assert(ids[k] == id);
            }
        }
        lemma_without_absent(rest, id);
        rest.lemma_filter_push(ids.last(), other_than(id));
    } else {
        reveal(Seq::filter);
    }
}

/// Stopping the same task twice is the same as stopping it once.
pub proof fn lemma_remove_idempotent(ids: Seq<Seq<char>>, id: Seq<char>)
    requires
        valid_running(ids),
    ensures
        without_task(without_task(ids, id), id) == without_task(ids, id),
{
    lemma_filter_keeps_valid(ids, id);
    lemma_without_absent(without_task(ids, id), id);
}

/// Letting the same task run twice is the same as letting it run once.
pub proof fn lemma_add_idempotent(ids: Seq<Seq<char>>, id: Seq<char>)
    ensures
        with_task(with_task(ids, id), id) == with_task(ids, id),
{
    assert(with_task(ids, id).contains(id)) by {
        if !ids.contains(id) {
            assert(ids.push(id)[ids.len() as int] == id);
        }
    }
}

/// Letting a task run in a tray that is not full keeps the tray valid, holds
/// the task afterwards, and grows the count by one exactly when it was not running.
pub proof fn lemma_add_keeps_valid(ids: Seq<Seq<char>>, id: Seq<char>)
    requires
        valid_running(ids),
        ids.len() < MAX_RUNNING_TASKS,
    ensures
        valid_running(with_task(ids, id)),
        with_task(ids, id).contains(id),
        with_task(ids, id).len() == if ids.contains(id) { ids.len() } else { ids.len() + 1 },
{
    lemma_add_idempotent(ids, id);
}

/// Stopping a task keeps the tray valid, leaves the task not running, keeps
/// every other task, and shrinks the count by one exactly when it was running.
pub proof fn lemma_remove_keeps_valid(ids: Seq<Seq<char>>, id: Seq<char>)
    requires
        valid_running(ids),
    ensures
        valid_running(without_task(ids, id)),
        !without_task(ids, id).contains(id),
        forall|x: Seq<char>| x != id ==> (ids.contains(x) <==> #[trigger] without_task(ids, id).contains(x)),
        without_task(ids, id).len() == if ids.contains(id) { ids.len() - 1 } else { ids.len() as int },
{
    lemma_filter_keeps_valid(ids, id);
    if ids.contains(id) {
        lemma_remove_count(ids, id);
    } else {
        lemma_without_absent(ids, id);
    }
}

proof fn lemma_remove_count(ids: Seq<Seq<char>>, id: Seq<char>)
    requires
        ids.no_duplicates(),
        ids.contains(id),
    ensures
        without_task(ids, id).len() == ids.len() - 1,
    decreases ids.len(),
{
    let rest = ids.drop_last();
    let last = ids.last();
    assert(rest.push(last) =~= ids);
    rest.lemma_filter_push(last, other_than(id));
    if last == id {
        assert(!rest.contains(id)) by {
            if rest.contains(id) {
                let k: int = choose|k: int| 0 <= k < rest.len() && rest[k] == id;
                assert(ids[k] == ids[ids.len() - 1]);
            }
        }
        lemma_without_absent(rest, id);
    } else {
        let k: int = choose|k: int| 0 <= k < ids.len() && ids[k] == id;
        assert(rest[k] == id);
        lemma_remove_count(rest, id);
    }
}

proof fn lemma_filter_no_duplicates(ids: Seq<Seq<char>>, pred: spec_fn(Seq<char>) -> bool)
    requires
        ids.no_duplicates(),
    ensures
        ids.filter(pred).no_duplicates(),
    decreases ids.len(),
{
    if ids.len() > 0 {
        let rest = ids.drop_last();
        let last = ids.last();
        assert(rest.no_duplicates());
        lemma_filter_no_duplicates(rest, pred);
        assert(rest.push(last) =~= ids);
        rest.lemma_filter_push(last, pred);
        if pred(last) {
            assert(!rest.contains(last));
            if rest.filter(pred).contains(last) {
                rest.lemma_filter_contains_rev(pred, last);
            }
            let f = rest.filter(pred).push(last);
            assert forall|i: int, j: int|
                0 <= i < f.len() && 0 <= j < f.len() && i != j implies f[i] != f[j] by {
                if i == f.len() - 1 {
                    assert(rest.filter(pred).contains(f[j]) ==> f[j] != last);
                } else if j == f.len() - 1 {
                    assert(rest.filter(pred)[i] == f[i]);
                }
            }
        }
    }
}

proof fn lemma_filter_keeps_valid(ids: Seq<Seq<char>>, id: Seq<char>)
    requires
        valid_running(ids),
    ensures
        valid_running(without_task(ids, id)),
        !without_task(ids, id).contains(id),
        forall|x: Seq<char>| x != id ==> (ids.contains(x) <==> #[trigger] without_task(ids, id).contains(x)),
{
    broadcast use vstd::seq_lib::group_filter_ensures;
    let pred = other_than(id);
    ids.lemma_filter_len(pred);
    lemma_filter_no_duplicates(ids, pred);
    assert forall|x: Seq<char>| x != id implies (ids.contains(x) <==> #[trigger] without_task(ids, id).contains(x)) by {
        if ids.contains(x) {
            let k: int = choose|k: int| 0 <= k < ids.len() && ids[k] == x;
            ids.lemma_filter_contains(pred, k);
        }
        if without_task(ids, id).contains(x) {
            ids.lemma_filter_contains_rev(pred, x);
        }
    }
    if without_task(ids, id).contains(id) {
        let k: int = choose|k: int| 0 <= k < without_task(ids, id).len() && without_task(ids, id)[k] == id;
        ids.lemma_filter_pred(pred, k);
    }
}

} // verus!
