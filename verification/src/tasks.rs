//! Tasks: the rows written when a task or a session is created, what a
//! change of status does to the tray and to sessions, and tasks grouped by
//! the day on which they were created.
use vstd::prelude::*;
use crate::clock::{parse_day, parsed_day};
use crate::sessions::TaskSession;
use crate::status::lemma_status_texts_differ;
use crate::text::{lemma_text_less_order, same_text, text_before, text_less, text_option_view};
use crate::tray::{
    lemma_add_then_remove, limit_message, valid_running, with_task, without_task, TrayState,
    MAX_RUNNING_TASKS,
};

verus! {

/// A task as the user sees it and the database holds it.
pub struct UserTask {
    pub id: Option<String>,
    pub title: String,
    pub status: String,
    pub created: String,
}

/// A task row to insert: a fresh id with the task's title, status and creation time.
pub struct TaskRow {
    pub id: String,
    pub title: String,
    pub status: String,
    pub created: String,
}

/// A session row to insert: a fresh id with the session's fields.
pub struct SessionRow {
    pub id: String,
    pub duration: i64,
    pub task_id: String,
    pub started: String,
    pub ended: Option<String>,
}

/// The text of a lower-case hyphenated UUID of version 4: 36 characters,
/// hyphens at 8, 13, 18 and 23, the digit `4` at 14, hexadecimal digits elsewhere.
pub open spec fn is_v4_uuid_text(t: Seq<char>) -> bool {
    &&& t.len() == 36
    &&& forall|i: int|
        0 <= i < 36 ==> if i == 8 || i == 13 || i == 18 || i == 23 {
            t[i] == '-'
        } else {
            ('0' <= #[trigger] t[i] <= '9') || ('a' <= t[i] <= 'f')
        }
    &&& t[14] == '4'
}

/// Calls `uuid::Uuid::new_v4` and writes the id with `to_string`. The id is
/// random; the claim is only its shape, which uuid's `Display` (lower-case
/// hyphenated) and the version bits that `new_v4` sets give it.
#[verifier::external_body]
fn new_record_id() -> (id: String)
    ensures
        is_v4_uuid_text(id@),
{
    uuid::Uuid::new_v4().to_string()
}

/// The row that creates `task`: a fresh id (any id the task carries is not
/// used), and its title, status and creation time.
pub fn task_row(task: UserTask) -> (row: TaskRow)
    ensures
        is_v4_uuid_text(row.id@),
        row.title@ == task.title@,
        row.status@ == task.status@,
        row.created@ == task.created@,
{
    TaskRow { id: new_record_id(), title: task.title, status: task.status, created: task.created }
}

/// The row that stores `session`: a fresh id and the session's fields.
pub fn session_row(session: TaskSession) -> (row: SessionRow)
    ensures
        is_v4_uuid_text(row.id@),
        row.duration == session.duration,
        row.task_id@ == session.task_id@,
        row.started@ == session.started@,
        row.ended == session.ended,
{
    SessionRow {
        id: new_record_id(),
        duration: session.duration,
        task_id: session.task_id,
        started: session.started,
        ended: session.ended,
    }
}

/// The message when inserting a task changed no row.
pub open spec fn no_row_message() -> Seq<char> {
    "Insert failed: 0 rows affected"@
}

/// Whether inserting a task succeeded, from the number of rows it changed.
pub fn insert_outcome(rows_affected: usize) -> (res: Result<(), String>)
    ensures
        rows_affected > 0 ==> res is Ok,
        rows_affected == 0 ==> (res matches Err(e) && e@ == no_row_message()),
{
    if rows_affected > 0 {
        Ok(())
    } else {
        Err("Insert failed: 0 rows affected".to_owned())
    }
}

/// What a change of status does to the task's sessions.
#[derive(Debug, Clone, Copy, PartialEq, Eq, Structural)]
pub enum SessionStep {
    /// Nothing.
    Keep,
    /// A new session starts now.
    Open,
    /// The task's open session ends now.
    CloseOpen,
}

/// A status that stops a task.
pub open spec fn is_stopping_status(status: Seq<char>) -> bool {
    status == "Paused"@ || status == "Completed"@
}

/// What a change from status `current` to `status` does to the sessions,
/// where the tray let it happen.
pub open spec fn session_step(status: Seq<char>, current: Seq<char>) -> SessionStep {
    if status == "Running"@ {
        if current == "Running"@ {
            SessionStep::Keep
        } else {
            SessionStep::Open
        }
    } else if is_stopping_status(status) {
        if current == "Running"@ {
            SessionStep::CloseOpen
        } else {
            SessionStep::Keep
        }
    } else {
        SessionStep::Keep
    }
}

/// Changes the status of `task_id` from `current_status` to `status` in the
/// tray, and says what becomes of its sessions. `Running` lets the task run
/// (refused, with nothing changed, where the tray is full); `Paused` and
/// `Completed` stop it; any other status changes nothing.
pub fn apply_status_change(
    tray: &mut TrayState,
    task_id: String,
    status: &str,
    current_status: &str,
) -> (res: Result<SessionStep, String>)
    ensures
        status@ == "Running"@ ==> if old(tray)@.len() >= MAX_RUNNING_TASKS {
            &&& res matches Err(e) && e@ == limit_message()
            &&& final(tray)@ == old(tray)@
        } else {
            &&& res == Ok::<SessionStep, String>(session_step(status@, current_status@))
            &&& final(tray)@ == with_task(old(tray)@, task_id@)
        },
        is_stopping_status(status@) ==> {
            &&& res == Ok::<SessionStep, String>(session_step(status@, current_status@))
            &&& final(tray)@ == without_task(old(tray)@, task_id@)
        },
        status@ != "Running"@ && !is_stopping_status(status@) ==> {
            &&& res == Ok::<SessionStep, String>(SessionStep::Keep)
            &&& final(tray)@ == old(tray)@
        },
{
    proof {
        lemma_status_texts_differ();
    }
    let current_running = same_text(current_status, "Running");
    if same_text(status, "Running") {
        match tray.add_running_task(task_id) {
            Err(e) => Err(e),
            Ok(()) => {
                if current_running {
                    Ok(SessionStep::Keep)
                } else {
                    Ok(SessionStep::Open)
                }
            },
        }
    } else if same_text(status, "Paused") || same_text(status, "Completed") {
        let _ = tray.remove_running_task(task_id.as_str());
        if current_running {
            Ok(SessionStep::CloseOpen)
        } else {
            Ok(SessionStep::Keep)
        }
    } else {
        Ok(SessionStep::Keep)
    }
}

/// Starting a task that does not run, in a tray that is not full, opens a
/// session; stopping it again closes that session and gives back the tray
/// as it was. A task that already runs never opens a second session, and a
/// task that does not run never closes one.
pub proof fn lemma_start_then_stop(ids: Seq<Seq<char>>, id: Seq<char>, current: Seq<char>, stop: Seq<char>)
    requires
        valid_running(ids),
        !ids.contains(id),
        ids.len() < MAX_RUNNING_TASKS,
        current != "Running"@,
        is_stopping_status(stop),
    ensures
        session_step("Running"@, current) == SessionStep::Open,
        session_step(stop, "Running"@) == SessionStep::CloseOpen,
        without_task(with_task(ids, id), id) == ids,
        session_step("Running"@, "Running"@) == SessionStep::Keep,
        session_step(stop, current) == SessionStep::Keep,
{
    lemma_status_texts_differ();
    lemma_add_then_remove(ids, id);
}

/// The tasks created on one day, each with its tracked seconds.
pub struct DayGroup {
    pub day: String,
    pub tasks: Vec<(UserTask, i64)>,
}

/// Entries with their day labels taken by view.
pub open spec fn label_views<T>(entries: Seq<(Option<String>, T)>) -> Seq<(Option<Seq<char>>, T)> {
    entries.map_values(|e: (Option<String>, T)| (text_option_view(e.0), e.1))
}

/// The days that carry entries, in the order in which each first appears.
pub open spec fn day_keys<T>(entries: Seq<(Option<Seq<char>>, T)>) -> Seq<Seq<char>>
    decreases entries.len(),
{
    if entries.len() == 0 {
        Seq::empty()
    } else {
        let keys = day_keys(entries.drop_last());
        match entries.last().0 {
            Some(d) => if keys.contains(d) {
                keys
            } else {
                keys.push(d)
            },
            None => keys,
        }
    }
}

/// The items of the entries labelled with `day`, in order.
pub open spec fn items_of_day<T>(entries: Seq<(Option<Seq<char>>, T)>, day: Seq<char>) -> Seq<T>
    decreases entries.len(),
{
    if entries.len() == 0 {
        Seq::empty()
    } else {
        let items = items_of_day(entries.drop_last(), day);
        if entries.last().0 == Some(day) {
            items.push(entries.last().1)
        } else {
            items
        }
    }
}

/// `groups` holds, for each day of `entries` in order of first appearance,
/// that day and its items in order.
pub open spec fn grouped_in_first_order(
    groups: Seq<DayGroup>,
    entries: Seq<(Option<Seq<char>>, (UserTask, i64))>,
) -> bool {
    &&& groups.len() == day_keys(entries).len()
    &&& forall|i: int|
        #![trigger groups[i]]
        0 <= i < groups.len() ==> {
            &&& groups[i].day@ == day_keys(entries)[i]
            &&& groups[i].tasks@ == items_of_day(entries, day_keys(entries)[i])
        }
}

/// No day appears twice among the groups, and every day of an entry has a group.
pub proof fn lemma_day_keys_distinct<T>(entries: Seq<(Option<Seq<char>>, T)>)
    ensures
        day_keys(entries).no_duplicates(),
        forall|i: int|
            0 <= i < entries.len() && entries[i].0 is Some ==> day_keys(entries).contains(
                #[trigger] entries[i].0->0,
            ),
    decreases entries.len(),
{
    if entries.len() > 0 {
        let rest = entries.drop_last();
        lemma_day_keys_distinct(rest);
        let keys = day_keys(rest);
        if let Some(d) = entries.last().0 {
            if !keys.contains(d) {
                let k2 = keys.push(d);
                assert forall|i: int, j: int|
                    0 <= i < k2.len() && 0 <= j < k2.len() && i != j implies k2[i] != k2[j] by {
                    if i == keys.len() {
                        assert(keys.contains(k2[j]));
                    } else if j == keys.len() {
                        assert(keys.contains(k2[i]));
                    }
                }
                assert(k2[keys.len() as int] == d);
            }
        }
        assert forall|i: int|
            0 <= i < entries.len() && entries[i].0 is Some implies day_keys(entries).contains(
            #[trigger] entries[i].0->0) by {
            if i < rest.len() {
                assert(rest[i] == entries[i]);
                let x = entries[i].0->0;
                let k: int = choose|k: int| 0 <= k < keys.len() && keys[k] == x;
                if let Some(d) = entries.last().0 {
                    if !keys.contains(d) {
                        assert(keys.push(d)[k] == x);
                    }
                }
            } else {
                let d = entries.last().0->0;
                if !keys.contains(d) {
                    assert(keys.push(d)[keys.len() as int] == d);
                }
            }
        }
    }
}

proof fn lemma_absent_day_has_no_items<T>(entries: Seq<(Option<Seq<char>>, T)>, day: Seq<char>)
    requires
        !day_keys(entries).contains(day),
    ensures
        items_of_day(entries, day) == Seq::<T>::empty(),
    decreases entries.len(),
{
    if entries.len() > 0 {
        let rest = entries.drop_last();
        let keys = day_keys(rest);
        assert(!keys.contains(day)) by {
            if keys.contains(day) {
                let k: int = choose|k: int| 0 <= k < keys.len() && keys[k] == day;
                if let Some(d) = entries.last().0 {
                    if !keys.contains(d) {
                        assert(keys.push(d)[k] == day);
                    }
                }
            }
        }
        lemma_absent_day_has_no_items(rest, day);
        if entries.last().0 == Some(day) {
            assert(keys.push(day)[keys.len() as int] == day);
        }
    }
}

/// How many entries carry a day.
pub open spec fn dated_count<T>(entries: Seq<(Option<Seq<char>>, T)>) -> nat
    decreases entries.len(),
{
    if entries.len() == 0 {
        0
    } else {
        dated_count(entries.drop_last()) + if entries.last().0 is Some {
            1nat
        } else {
            0nat
        }
    }
}

/// How many items the days `keys` hold together.
pub open spec fn grouped_count<T>(entries: Seq<(Option<Seq<char>>, T)>, keys: Seq<Seq<char>>) -> nat
    decreases keys.len(),
{
    if keys.len() == 0 {
        0
    } else {
        grouped_count(entries, keys.drop_last()) + items_of_day(entries, keys.last()).len()
    }
}

proof fn lemma_grouped_count_step<T>(
    before: Seq<(Option<Seq<char>>, T)>,
    e: (Option<Seq<char>>, T),
    keys: Seq<Seq<char>>,
)
    requires
        keys.no_duplicates(),
    ensures
        grouped_count(before.push(e), keys) == grouped_count(before, keys) + if e.0 is Some
            && keys.contains(e.0->0) {
            1nat
        } else {
            0nat
        },
    decreases keys.len(),
{
    let after = before.push(e);
    assert(after.drop_last() =~= before);
    if keys.len() > 0 {
        let rest = keys.drop_last();
        assert(rest.no_duplicates());
        lemma_grouped_count_step(before, e, rest);
        if e.0 is Some {
            let d = e.0->0;
            if keys.last() == d {
                assert(!rest.contains(d)) by {
                    if rest.contains(d) {
                        let m: int = choose|m: int| 0 <= m < rest.len() && rest[m] == d;
                        assert(keys[m] == keys[keys.len() - 1]);
                    }
                }
                assert(keys.contains(d)) by {
                    assert(keys[keys.len() - 1] == d);
                }
            } else {
                assert(keys.contains(d) == rest.contains(d)) by {
                    if keys.contains(d) {
                        let m: int = choose|m: int| 0 <= m < keys.len() && keys[m] == d;
                        assert(rest[m] == d);
                    }
                    if rest.contains(d) {
                        let m: int = choose|m: int| 0 <= m < rest.len() && rest[m] == d;
                        assert(keys[m] == d);
                    }
                }
            }
        } else {
        }
    }
}

/// Nothing is lost and nothing counted twice: the groups of the days of
/// `entries` hold, together, exactly as many items as there are entries
/// that carry a day.
pub proof fn lemma_every_dated_entry_grouped_once<T>(entries: Seq<(Option<Seq<char>>, T)>)
    ensures
        grouped_count(entries, day_keys(entries)) == dated_count(entries),
    decreases entries.len(),
{
    if entries.len() > 0 {
        let before = entries.drop_last();
        let e = entries.last();
        assert(before.push(e) =~= entries);
        lemma_every_dated_entry_grouped_once(before);
        lemma_day_keys_distinct(before);
        let keys = day_keys(before);
        lemma_grouped_count_step(before, e, keys);
        if e.0 is Some {
            let d = e.0->0;
            if !keys.contains(d) {
                lemma_absent_day_has_no_items(before, d);
                assert(keys.push(d).drop_last() =~= keys);
            }
        }
    }
}

/// `groups` holds one group for each day of `entries`, latest day first (in
/// the order of `String`'s `Ord`, descending), each with the items of that
/// day in order.
pub open spec fn grouped_by_day(
    groups: Seq<DayGroup>,
    entries: Seq<(Option<Seq<char>>, (UserTask, i64))>,
) -> bool {
    &&& groups.len() == day_keys(entries).len()
    &&& forall|i: int|
        #![trigger groups[i]]
        0 <= i < groups.len() ==> {
            &&& day_keys(entries).contains(groups[i].day@)
            &&& groups[i].tasks@ == items_of_day(entries, groups[i].day@)
        }
    &&& forall|d: Seq<char>|
        #[trigger] day_keys(entries).contains(d) ==> exists|i: int|
            0 <= i < groups.len() && #[trigger] groups[i].day@ == d
    &&& days_descending(groups)
}

/// The days of `groups`, in order, are strictly descending.
pub open spec fn days_descending(groups: Seq<DayGroup>) -> bool {
    forall|i: int, j: int|
        0 <= i < j < groups.len() ==> text_less(#[trigger] groups[j].day@, #[trigger] groups[i].day@)
}

/// No two of `groups` share a day.
pub open spec fn days_distinct(groups: Seq<DayGroup>) -> bool {
    forall|i: int, j: int|
        0 <= i < groups.len() && 0 <= j < groups.len() && i != j ==> #[trigger] groups[i].day@
            != #[trigger] groups[j].day@
}

/// `a` holds the groups of `b` rearranged: `a[i]` is `b[to_b[i]]`, and
/// `b[j]` is `a[to_a[j]]`.
pub open spec fn rearranged(a: Seq<DayGroup>, b: Seq<DayGroup>, to_b: Seq<int>, to_a: Seq<int>) -> bool {
    &&& to_b.len() == a.len()
    &&& to_a.len() == b.len()
    &&& forall|i: int| 0 <= i < a.len() ==> 0 <= #[trigger] to_b[i] < b.len() && a[i] == b[to_b[i]]
    &&& forall|j: int| 0 <= j < b.len() ==> 0 <= #[trigger] to_a[j] < a.len() && a[to_a[j]] == b[j]
}

/// `a` and `b` hold the same groups: each group of one is a group of the other.
pub open spec fn same_groups(a: Seq<DayGroup>, b: Seq<DayGroup>) -> bool {
    exists|to_b: Seq<int>, to_a: Seq<int>| #[trigger] rearranged(a, b, to_b, to_a)
}

/// Puts groups with distinct days in descending order of day: the result
/// holds the same groups, latest day first.
pub fn sort_days_descending(groups: Vec<DayGroup>) -> (sorted: Vec<DayGroup>)
    requires
        days_distinct(groups@),
    ensures
        sorted@.len() == groups@.len(),
        same_groups(sorted@, groups@),
        days_descending(sorted@),
{
    let ghost src = groups@;
    let mut rest = groups;
    let total: usize = rest.len();
    let mut sorted: Vec<DayGroup> = Vec::new();
    let ghost mut idx: Seq<int> = Seq::empty();
    let ghost mut pos: Seq<int> = Seq::empty();
    let mut k: usize = 0;
    assert(rest@ =~= src.subrange(0, src.len() as int));
    while rest.len() > 0
        invariant
            src.len() == total,
            k + rest@.len() == total,
            rest@ == src.subrange(k as int, total as int),
            days_distinct(src),
            sorted@.len() == k,
            idx.len() == k,
            pos.len() == k,
            forall|i: int| 0 <= i < k ==> 0 <= #[trigger] idx[i] < k && sorted@[i] == src[idx[i]],
            forall|j: int| 0 <= j < k ==> 0 <= #[trigger] pos[j] < k && sorted@[pos[j]] == src[j],
            days_descending(sorted@),
        decreases rest@.len(),
    {
        let g = rest.remove(0);
        assert(g == src[k as int]);
        assert(rest@ =~= src.subrange(k + 1, total as int));
        let n: usize = sorted.len();
        let mut p: usize = 0;
        while p < n && !text_before(&sorted[p].day, &g.day)
            invariant
                n == sorted@.len(),
                p <= n,
                forall|q: int| 0 <= q < p ==> !text_less(#[trigger] sorted@[q].day@, g.day@),
            decreases n - p,
        {
            p = p + 1;
        }
        let ghost old_sorted = sorted@;
        sorted.insert(p, g);
        proof {
            assert forall|i: int| 0 <= i < k implies #[trigger] old_sorted[i].day@ != g.day@ by {
                assert(old_sorted[i] == src[idx[i]]);
                assert(idx[i] != k as int);
            }
            assert forall|i: int, j: int|
                0 <= i < j < sorted@.len() implies text_less(#[trigger] sorted@[j].day@, #[trigger] sorted@[i].day@) by {
                if j < p {
                    assert(sorted@[i] == old_sorted[i] && sorted@[j] == old_sorted[j]);
                } else if j == p {
                    assert(sorted@[i] == old_sorted[i]);
                    lemma_text_less_order(old_sorted[i].day@, g.day@, g.day@);
                } else if i == p {
                    assert(sorted@[j] == old_sorted[j - 1]);
                    assert(text_less(old_sorted[p as int].day@, g.day@));
                    if j - 1 > p {
                        lemma_text_less_order(old_sorted[j - 1].day@, old_sorted[p as int].day@, g.day@);
                    }
                } else if i < p {
                    assert(sorted@[i] == old_sorted[i] && sorted@[j] == old_sorted[j - 1]);
                } else {
                    assert(sorted@[i] == old_sorted[i - 1] && sorted@[j] == old_sorted[j - 1]);
                }
            }
            let new_idx = idx.insert(p as int, k as int);
            let new_pos = Seq::new((k + 1) as nat, |j: int| if j == k { p as int } else if pos[j] >= p { pos[j] + 1 } else { pos[j] });
            assert forall|i: int| 0 <= i < k + 1 implies 0 <= #[trigger] new_idx[i] < k + 1 && sorted@[i] == src[new_idx[i]] by {
                if i < p {
                } else if i == p {
                } else {
                    assert(new_idx[i] == idx[i - 1]);
                }
            }
            assert forall|j: int| 0 <= j < k + 1 implies 0 <= #[trigger] new_pos[j] < k + 1 && sorted@[new_pos[j]] == src[j] by {
                if j < k {
                    assert(old_sorted[pos[j]] == src[j]);
                }
            }
            idx = new_idx;
            pos = new_pos;
        }
        k = k + 1;
    }
    assert(rearranged(sorted@, src, idx, pos));
    sorted
}

/// Groups entries by their day label: one group per day, latest day first,
/// each holding the items of that day in order. Entries without a day are
/// left out.
pub fn group_labelled(entries: Vec<(Option<String>, (UserTask, i64))>) -> (groups: Vec<DayGroup>)
    ensures
        grouped_by_day(groups@, label_views(entries@)),
{
    let ghost all = label_views(entries@);
    let first = group_in_first_order(entries);
    proof {
        lemma_day_keys_distinct(all);
        let keys = day_keys(all);
        assert forall|i: int, j: int|
            0 <= i < first@.len() && 0 <= j < first@.len() && i != j implies #[trigger] first@[i].day@
                != #[trigger] first@[j].day@ by {
            assert(first@[i].day@ == keys[i] && first@[j].day@ == keys[j]);
        }
    }
    let sorted = sort_days_descending(first);
    proof {
        let keys = day_keys(all);
        assert forall|i: int| #![trigger sorted@[i]] 0 <= i < sorted@.len() implies {
            &&& keys.contains(sorted@[i].day@)
            &&& sorted@[i].tasks@ == items_of_day(all, sorted@[i].day@)
        } by {
            let (to_b, to_a) = choose|to_b: Seq<int>, to_a: Seq<int>| rearranged(sorted@, first@, to_b, to_a);
            let j = to_b[i];
            assert(sorted@[i] == first@[j]);
            assert(first@[j].day@ == keys[j]);
        }
        assert forall|d: Seq<char>| #[trigger] keys.contains(d) implies exists|i: int|
            0 <= i < sorted@.len() && #[trigger] sorted@[i].day@ == d by {
            let j: int = choose|j: int| 0 <= j < keys.len() && keys[j] == d;
            assert(first@[j].day@ == d);
            let (to_b, to_a) = choose|to_b: Seq<int>, to_a: Seq<int>| rearranged(sorted@, first@, to_b, to_a);
            let i = to_a[j];
            assert(sorted@[i] == first@[j]);
            assert(sorted@[i].day@ == d);
        }
    }
    sorted
}

/// Groups entries by their day label: one group per day, in the order in
/// which each day first appears, each holding the items of that day in
/// order. Entries without a day are left out.
fn group_in_first_order(entries: Vec<(Option<String>, (UserTask, i64))>) -> (groups: Vec<DayGroup>)
    ensures
        grouped_in_first_order(groups@, label_views(entries@)),
{
    let ghost all = label_views(entries@);
    let mut rest = entries;
    let mut groups: Vec<DayGroup> = Vec::new();
    let total: usize = rest.len();
    let mut k: usize = 0;
    proof {
        assert(all.take(0) =~= Seq::<(Option<Seq<char>>, (UserTask, i64))>::empty());
        assert(label_views(rest@) =~= all.subrange(0, all.len() as int));
    }
    while rest.len() > 0
        invariant
            k + rest@.len() == all.len(),
            all.len() == total,
            label_views(rest@) == all.subrange(k as int, all.len() as int),
            grouped_in_first_order(groups@, all.take(k as int)),
        decreases rest@.len(),
    {
        let ghost before = all.take(k as int);
        let ghost after = all.take(k + 1);
        let ghost old_groups = groups@;
        proof {
            assert(after.drop_last() =~= before);
            assert(label_views(rest@)[0] == all[k as int]);
            assert(after.last() == all[k as int]);
            lemma_day_keys_distinct(before);
        }
        let ghost rest_before = rest@;
        let (label, item) = rest.remove(0);
        proof {
            assert(label_views(rest@) =~= all.subrange(k + 1, all.len() as int)) by {
                assert forall|m: int| 0 <= m < rest@.len() implies #[trigger] label_views(rest@)[m]
                    == all.subrange(k + 1, all.len() as int)[m] by {
                    assert(rest@[m] == rest_before[m + 1]);
                    assert(label_views(rest_before)[m + 1] == all[k + 1 + m]);
                }
            }
            assert(text_option_view(label) == all[k as int].0 && item == all[k as int].1);
        }
        match label {
            None => {
                assert(day_keys(after) == day_keys(before));
                assert forall|i: int| #![trigger groups@[i]] 0 <= i < groups@.len() implies {
                    &&& groups@[i].day@ == day_keys(after)[i]
                    &&& groups@[i].tasks@ == items_of_day(after, day_keys(after)[i])
                } by {}
            },
            Some(day) => {
                let n: usize = groups.len();
                let mut j: usize = 0;
                let mut found = false;
                while j < n && !found
                    invariant
                        n == groups@.len(),
                        j <= n,
                        found ==> j < n && groups@[j as int].day@ == day@,
                        !found ==> forall|m: int| 0 <= m < j ==> groups@[m].day@ != day@,
                    decreases n - j + (if found { 0int } else { 1int }),
                {
                    if groups[j].day == day {
                        found = true;
                    } else {
                        j = j + 1;
                    }
                }
                let ghost keys = day_keys(before);
                if found {
                    proof {
                        assert(keys[j as int] == day@);
                        assert(keys.contains(day@));
                        assert(day_keys(after) == keys);
                    }
                    let mut g = groups.remove(j);
                    g.tasks.push(item);
                    groups.insert(j, g);
                    proof {
                        assert forall|i: int| #![trigger groups@[i]] 0 <= i < groups@.len() implies {
                            &&& groups@[i].day@ == day_keys(after)[i]
                            &&& groups@[i].tasks@ == items_of_day(after, day_keys(after)[i])
                        } by {
                            if i == j {
                            } else {
                                assert(groups@[i] == old_groups[i]);
                                assert(keys[i] != keys[j as int]);
                            }
                        }
                    }
                } else {
                    proof {
                        assert(!keys.contains(day@)) by {
                            if keys.contains(day@) {
                                let m: int = choose|m: int| 0 <= m < keys.len() && keys[m] == day@;
                                assert(groups@[m].day@ != day@);
                            }
                        }
                        lemma_absent_day_has_no_items(before, day@);
                        assert(day_keys(after) == keys.push(day@));
                    }
                    let mut tasks: Vec<(UserTask, i64)> = Vec::new();
                    tasks.push(item);
                    groups.push(DayGroup { day, tasks });
                    proof {
                        assert forall|i: int| #![trigger groups@[i]] 0 <= i < groups@.len() implies {
                            &&& groups@[i].day@ == day_keys(after)[i]
                            &&& groups@[i].tasks@ == items_of_day(after, day_keys(after)[i])
                        } by {
                            if i < n {
                                assert(groups@[i] == old_groups[i]);
                                assert(keys[i] != day@) by {
                                    assert(groups@[i].day@ != day@);
                                }
                            } else {
                                assert(items_of_day(before, day@) =~= Seq::<(UserTask, i64)>::empty());
                                assert(groups@[i].tasks@ =~= seq![item]);
                            }
                        }
                    }
                }
            },
        }
        k = k + 1;
    }
    proof {
        assert(all.take(k as int) =~= all);
    }
    groups
}

/// The pattern in which a task's creation time is written.
pub open spec fn created_pattern() -> Seq<char> {
    "%Y-%m-%dT%H:%M:%S%.fZ"@
}

/// Each task, with its tracked seconds, labelled with the day on which it
/// was created, where its creation time reads in `created_pattern`.
pub open spec fn created_day_entries(tasks: Seq<(UserTask, i64)>) -> Seq<
    (Option<Seq<char>>, (UserTask, i64)),
> {
    tasks.map_values(|t: (UserTask, i64)| (parsed_day(t.0.created@, created_pattern()), t))
}

/// Some entry of `entries` labelled with `day` carries `item`.
pub open spec fn labelled_with<T>(entries: Seq<(Option<Seq<char>>, T)>, day: Seq<char>, item: T) -> bool {
    exists|i: int|
        #![trigger entries[i]]
        0 <= i < entries.len() && entries[i].0 == Some(day) && entries[i].1 == item
}

/// Each entry labelled with `day` has its item among the items of `day`,
/// and each item of `day` is carried by an entry labelled with `day`.
proof fn lemma_items_of_day_members<T>(entries: Seq<(Option<Seq<char>>, T)>, day: Seq<char>)
    ensures
        forall|i: int|
            0 <= i < entries.len() && #[trigger] entries[i].0 == Some(day) ==> items_of_day(
                entries,
                day,
            ).contains(entries[i].1),
        forall|j: int|
            0 <= j < items_of_day(entries, day).len() ==> #[trigger] labelled_with(
                entries,
                day,
                items_of_day(entries, day)[j],
            ),
    decreases entries.len(),
{
    if entries.len() > 0 {
        let rest = entries.drop_last();
        let items = items_of_day(rest, day);
        let last: int = entries.len() - 1;
        lemma_items_of_day_members(rest, day);
        assert forall|i: int|
            0 <= i < entries.len() && #[trigger] entries[i].0 == Some(day) implies items_of_day(
                entries,
                day,
            ).contains(entries[i].1) by {
            if i < last {
                assert(rest[i] == entries[i]);
                assert(items.contains(entries[i].1));
                let j: int = choose|j: int| 0 <= j < items.len() && items[j] == entries[i].1;
                if entries.last().0 == Some(day) {
                    assert(items.push(entries.last().1)[j] == entries[i].1);
                }
            } else {
                assert(items.push(entries.last().1)[items.len() as int] == entries[i].1);
            }
        }
        assert forall|j: int| 0 <= j < items_of_day(entries, day).len() implies #[trigger] labelled_with(
            entries,
            day,
            items_of_day(entries, day)[j],
        ) by {
            if j < items.len() {
                assert(labelled_with(rest, day, items[j]));
                let i: int = choose|i: int|
                    #![trigger rest[i]]
                    0 <= i < rest.len() && rest[i].0 == Some(day) && rest[i].1 == items[j];
                assert(rest[i] == entries[i]);
                if entries.last().0 == Some(day) {
                    assert(items.push(entries.last().1)[j] == items[j]);
                }
                assert(entries[i].1 == items_of_day(entries, day)[j]);
            } else {
                assert(entries[last].0 == Some(day));
                assert(entries[last].1 == items_of_day(entries, day)[j]);
            }
        }
    } else {
        assert(items_of_day(entries, day) =~= Seq::<T>::empty());
    }
}

/// Whether a task, with its tracked seconds, was created on `day`: its
/// creation time reads in `created_pattern` as a time of that day.
pub open spec fn created_on(day: Seq<char>) -> spec_fn((UserTask, i64)) -> bool {
    |t: (UserTask, i64)| parsed_day(t.0.created@, created_pattern()) == Some(day)
}

proof fn lemma_items_of_day_filter(tasks: Seq<(UserTask, i64)>, day: Seq<char>)
    ensures
        items_of_day(created_day_entries(tasks), day) == tasks.filter(created_on(day)),
    decreases tasks.len(),
{
    reveal(Seq::filter);
    if tasks.len() > 0 {
        let rest = tasks.drop_last();
        lemma_items_of_day_filter(rest, day);
        assert(created_day_entries(tasks).drop_last() =~= created_day_entries(rest));
        assert(created_day_entries(tasks).last() == (
            parsed_day(tasks.last().0.created@, created_pattern()),
            tasks.last(),
        ));
    } else {
        assert(created_day_entries(tasks) =~= Seq::<(Option<Seq<char>>, (UserTask, i64))>::empty());
    }
}

/// Grouping by day puts every task whose creation time reads in
/// `created_pattern`, with its tracked seconds whatever they are, into the
/// group of the day on which it was created; and every task in a group was
/// created on that group's day. Each group holds exactly the tasks created
/// on its day, in the order in which they were given.
pub proof fn lemma_tasks_grouped_by_creation_day(tasks: Seq<(UserTask, i64)>, groups: Seq<DayGroup>)
    requires
        grouped_by_day(groups, created_day_entries(tasks)),
    ensures
        forall|g: int|
            0 <= g < groups.len() ==> (#[trigger] groups[g]).tasks@ == tasks.filter(
                created_on(groups[g].day@),
            ),
        forall|i: int|
            0 <= i < tasks.len() && (#[trigger] parsed_day(tasks[i].0.created@, created_pattern())) is Some
                ==> exists|g: int|
                0 <= g < groups.len() && Some(groups[g].day@) == parsed_day(
                    tasks[i].0.created@,
                    created_pattern(),
                ) && #[trigger] groups[g].tasks@.contains(tasks[i]),
        forall|g: int, j: int|
            0 <= g < groups.len() && 0 <= j < groups[g].tasks@.len() ==> exists|i: int|
                0 <= i < tasks.len() && tasks[i] == #[trigger] groups[g].tasks@[j] && parsed_day(
                    #[trigger] tasks[i].0.created@,
                    created_pattern(),
                ) == Some(groups[g].day@),
{
    let entries = created_day_entries(tasks);
    lemma_day_keys_distinct(entries);
    assert forall|g: int| 0 <= g < groups.len() implies (#[trigger] groups[g]).tasks@ == tasks.filter(
        created_on(groups[g].day@),
    ) by {
        lemma_items_of_day_filter(tasks, groups[g].day@);
    }
    assert forall|i: int|
        0 <= i < tasks.len() && (#[trigger] parsed_day(tasks[i].0.created@, created_pattern())) is Some
            implies exists|g: int|
            0 <= g < groups.len() && Some(groups[g].day@) == parsed_day(
                tasks[i].0.created@,
                created_pattern(),
            ) && #[trigger] groups[g].tasks@.contains(tasks[i]) by {
        let d = parsed_day(tasks[i].0.created@, created_pattern())->0;
        assert(entries[i] == (Some(d), tasks[i]));
        assert(day_keys(entries).contains(entries[i].0->0));
        let g: int = choose|g: int| 0 <= g < groups.len() && #[trigger] groups[g].day@ == d;
        lemma_items_of_day_members(entries, d);
        assert(groups[g].tasks@ == items_of_day(entries, groups[g].day@));
        assert(items_of_day(entries, d).contains(entries[i].1));
    }
    assert forall|g: int, j: int| 0 <= g < groups.len() && 0 <= j < groups[g].tasks@.len() implies exists|i: int|
        0 <= i < tasks.len() && tasks[i] == #[trigger] groups[g].tasks@[j] && parsed_day(
            #[trigger] tasks[i].0.created@,
            created_pattern(),
        ) == Some(groups[g].day@) by {
        let d = groups[g].day@;
        lemma_items_of_day_members(entries, d);
        assert(groups[g].tasks@ == items_of_day(entries, d));
        assert(labelled_with(entries, d, items_of_day(entries, d)[j]));
        let i: int = choose|i: int|
            #![trigger entries[i]]
            0 <= i < entries.len() && entries[i].0 == Some(d) && entries[i].1 == items_of_day(
                entries,
                d,
            )[j];
        assert(entries[i] == (parsed_day(tasks[i].0.created@, created_pattern()), tasks[i]));
    }
}

/// Groups tasks, each with its tracked seconds, by the day on which each was
/// created: one group per day, latest day first, each holding its tasks in
/// order. A task whose creation time does not read
/// in `created_pattern` is left out.
pub fn group_by_day(tasks: Vec<(UserTask, i64)>) -> (groups: Vec<DayGroup>)
    ensures
        grouped_by_day(groups@, created_day_entries(tasks@)),
{
    let ghost all = tasks@;
    let mut rest = tasks;
    let mut labelled: Vec<(Option<String>, (UserTask, i64))> = Vec::new();
    let total: usize = rest.len();
    let mut k: usize = 0;
    while rest.len() > 0
        invariant
            k + rest@.len() == all.len(),
            all.len() == total,
            rest@ == all.subrange(k as int, all.len() as int),
            label_views(labelled@) == created_day_entries(all.take(k as int)),
        decreases rest@.len(),
    {
        let ghost rest_before = rest@;
        let entry = rest.remove(0);
        let day = parse_day(entry.0.created.as_str(), "%Y-%m-%dT%H:%M:%S%.fZ");
        let ghost before = labelled@;
        labelled.push((day, entry));
        proof {
            assert(rest@ =~= all.subrange(k + 1, all.len() as int));
            assert(all.take(k + 1) =~= all.take(k as int).push(all[k as int]));
            assert(label_views(labelled@) =~= label_views(before).push(
                (text_option_view(day), all[k as int]),
            ));
            assert(created_day_entries(all.take(k + 1)) =~= created_day_entries(
                all.take(k as int),
            ).push((parsed_day(all[k as int].0.created@, created_pattern()), all[k as int])));
        }
        k = k + 1;
    }
    proof {
        assert(all.take(k as int) =~= all);
    }
    group_labelled(labelled)
}

} // verus!
