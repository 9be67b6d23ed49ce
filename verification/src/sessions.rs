//! Work sessions of a task: opening one, closing the open one, closing those
//! left open when the application last stopped, and adding up tracked time.
use vstd::prelude::*;
use crate::clock::{
    clock_reading, current_moment, lemma_session_seconds_on_timeline, nonnegative_seconds,
    parse_rfc3339, rfc3339_instant, seconds_on_timeline, session_seconds, Instant, Moment,
    NANOS_PER_SECOND,
};
use crate::text::{same_text, text_option_view};

verus! {

/// A stretch of work on a task, as the database holds it.
pub struct TaskSession {
    pub id: Option<String>,
    pub duration: i64,
    pub task_id: String,
    pub started: String,
    pub ended: Option<String>,
}

/// How the open session of a task is closed: the session's id as it was
/// read, when it ended, and how many seconds it lasted.
pub struct SessionClosing {
    pub session_id: Option<String>,
    pub ended: String,
    pub duration: i64,
}

/// A session left open, as read back when the application starts.
pub struct OpenSessionRow {
    pub id: String,
    pub task_id: String,
    pub started: String,
}

/// How a session left open is closed, and the task whose status goes from
/// `Running` to `Paused`.
pub struct OrphanClosing {
    pub session_id: String,
    pub task_id: String,
    pub ended: String,
    pub duration: i64,
}

/// Opens a session of `task_id` that starts at `now`: no id yet, no end, no
/// duration, and `now`'s RFC 3339 text as its start.
pub fn start_session_at(task_id: String, now: &Moment) -> (session: TaskSession)
    ensures
        session.id is None,
        session.duration == 0,
        session.task_id@ == task_id@,
        session.started@ == now.text@,
        session.ended is None,
{
    TaskSession { id: None, duration: 0, task_id, started: now.text.clone(), ended: None }
}

/// Opens a session of `task_id` that starts now: no id yet, no end, no
/// duration; `started` is chrono's RFC 3339 text of a reading of the clock,
/// which reads back as that reading (in the years 1 to 9999).
pub fn start_session(task_id: String) -> (session: TaskSession)
    ensures
        session.id is None,
        session.duration == 0,
        session.task_id@ == task_id@,
        session.ended is None,
        exists|now: Moment| #[trigger] clock_reading(now) && now.text@ == session.started@,
{
    let now = current_moment();
    let session = start_session_at(task_id, &now);
    assert(clock_reading(now));
    session
}

/// `i` is the first session in `sessions` that has not ended.
pub open spec fn is_first_open(sessions: Seq<TaskSession>, i: int) -> bool {
    &&& 0 <= i < sessions.len()
    &&& sessions[i].ended is None
    &&& forall|j: int| 0 <= j < i ==> sessions[j].ended is Some
}

/// Closes the first session of `sessions` that has not ended, at `ended`.
/// Nothing is closed where every session has ended; where the open session's
/// start does not read as RFC 3339 text, the parse error is returned. Its
/// duration is the whole seconds from its start to `ended`, or zero where
/// `ended` is not later.
pub fn close_open_session_at(sessions: &Vec<TaskSession>, ended: &Moment) -> (res: Result<
    Option<SessionClosing>,
    String,
>)
    ensures
        (forall|j: int| 0 <= j < sessions@.len() ==> sessions@[j].ended is Some) ==> res matches Ok(
            None,
        ),
        forall|i: int| #[trigger]
            is_first_open(sessions@, i) ==> match rfc3339_instant(sessions@[i].started@) {
                Err(e) => res matches Err(m) && m@ == e,
                Ok(start) => res matches Ok(Some(c)) && {
                    &&& c.ended@ == ended.text@
                    &&& c.duration == nonnegative_seconds(ended.instant, start)
                    &&& match (c.session_id, sessions@[i].id) {
                        (Some(a), Some(b)) => a@ == b@,
                        (None, None) => true,
                        _ => false,
                    }
                },
            },
{
    let n: usize = sessions.len();
    let mut i: usize = 0;
    while i < n
        invariant
            n == sessions@.len(),
            i <= n,
            forall|j: int| 0 <= j < i ==> sessions@[j].ended is Some,
        decreases n - i,
    {
        if sessions[i].ended.is_none() {
            assert(is_first_open(sessions@, i as int));
            assert forall|k: int| #[trigger] is_first_open(sessions@, k) implies k == i by {
                if k < i {
                } else if k > i {
                    assert(sessions@[i as int].ended is Some);
                }
            }
            let session = &sessions[i];
            return match parse_rfc3339(session.started.as_str()) {
                Err(e) => Err(e),
                Ok(start) => {
                    let duration: i64 = session_seconds(&ended.instant, &start);
                    let session_id = match &session.id {
                        Some(id) => Some(id.clone()),
                        None => None,
                    };
                    Ok(Some(SessionClosing { session_id, ended: ended.text.clone(), duration }))
                },
            };
        }
        i = i + 1;
    }
    assert forall|k: int| #[trigger] is_first_open(sessions@, k) implies false by {
        assert(sessions@[k].ended is Some);
    }
    Ok(None)
}

/// Closes the first session of `sessions` that has not ended, now. Nothing
/// is closed where every session has ended; a start that does not read as
/// RFC 3339 text is refused with the parse error; a closed session keeps
/// its id, ends at the RFC 3339 text of a reading of the clock, and lasted
/// the seconds from its start to that reading, zero or more.
pub fn close_open_session(sessions: &Vec<TaskSession>) -> (res: Result<Option<SessionClosing>, String>)
    ensures
        (forall|j: int| 0 <= j < sessions@.len() ==> sessions@[j].ended is Some) ==> res matches Ok(
            None,
        ),
        forall|i: int| #[trigger]
            is_first_open(sessions@, i) ==> match rfc3339_instant(sessions@[i].started@) {
                Err(e) => res matches Err(m) && m@ == e,
                Ok(start) => res matches Ok(Some(c)) && {
                    &&& c.duration >= 0
                    &&& match (c.session_id, sessions@[i].id) {
                        (Some(a), Some(b)) => a@ == b@,
                        (None, None) => true,
                        _ => false,
                    }
                    &&& exists|m: Moment|
                        #![trigger clock_reading(m)]
                        clock_reading(m) && c.ended@ == m.text@ && c.duration == nonnegative_seconds(
                            m.instant,
                            start,
                        )
                },
            },
{
    let now = current_moment();
    let res = close_open_session_at(sessions, &now);
    assert(clock_reading(now));
    res
}

/// The seconds recorded for a session left open that started at `started`
/// and is closed at `exit`: zero where the start does not read as RFC 3339 text.
pub open spec fn orphan_seconds(started: Seq<char>, exit: Instant) -> int {
    match rfc3339_instant(started) {
        Ok(start) => nonnegative_seconds(exit, start),
        Err(_) => 0,
    }
}

/// The seconds recorded for a session left open that started at `started`
/// and is closed at `exit`.
pub fn orphan_seconds_at(started: &str, exit: &Instant) -> (s: i64)
    ensures
        s == orphan_seconds(started@, *exit),
        s >= 0,
{
    match parse_rfc3339(started) {
        Ok(start) => session_seconds(exit, &start),
        Err(_) => 0,
    }
}

/// `closings` end every row of `rows` at `now`, the session of row `i`
/// lasting until the clock reading `readings[i]`, as `orphan_seconds` counts it.
pub open spec fn closed_with(
    closings: Seq<OrphanClosing>,
    rows: Seq<OpenSessionRow>,
    now: Moment,
    readings: Seq<Moment>,
) -> bool {
    &&& readings.len() == rows.len()
    &&& forall|i: int|
        #![trigger closings[i]]
        #![trigger readings[i]]
        0 <= i < rows.len() ==> {
            &&& clock_reading(readings[i])
            &&& closings[i].ended@ == now.text@
            &&& closings[i].duration == orphan_seconds(rows[i].started@, readings[i].instant)
        }
}

/// Closes every session left open: each keeps its id and task and ends at
/// `now`; the session of row `i` lasted until `exits[i]`, as
/// `orphan_seconds` counts it (zero where its start does not read as RFC 3339
/// text or where it did not last).
pub fn close_orphaned_sessions_at(
    rows: &Vec<OpenSessionRow>,
    now: &Moment,
    exits: &Vec<Instant>,
) -> (closings: Vec<OrphanClosing>)
    requires
        exits@.len() == rows@.len(),
    ensures
        closings@.len() == rows@.len(),
        forall|i: int|
            #![trigger closings@[i]]
            0 <= i < rows@.len() ==> {
                &&& closings@[i].session_id@ == rows@[i].id@
                &&& closings@[i].task_id@ == rows@[i].task_id@
                &&& closings@[i].ended@ == now.text@
                &&& closings@[i].duration == orphan_seconds(rows@[i].started@, exits@[i])
            },
{
    let n: usize = rows.len();
    let mut closings: Vec<OrphanClosing> = Vec::new();
    let mut i: usize = 0;
    while i < n
        invariant
            n == rows@.len(),
            n == exits@.len(),
            i <= n,
            closings@.len() == i,
            forall|k: int|
                #![trigger closings@[k]]
                0 <= k < i ==> {
                    &&& closings@[k].session_id@ == rows@[k].id@
                    &&& closings@[k].task_id@ == rows@[k].task_id@
                    &&& closings@[k].ended@ == now.text@
                    &&& closings@[k].duration == orphan_seconds(rows@[k].started@, exits@[k])
                },
        decreases n - i,
    {
        let row = &rows[i];
        let duration: i64 = orphan_seconds_at(row.started.as_str(), &exits[i]);
        closings.push(
            OrphanClosing {
                session_id: row.id.clone(),
                task_id: row.task_id.clone(),
                ended: now.text.clone(),
                duration,
            },
        );
        i = i + 1;
    }
    closings
}

/// Closes every session left open: each keeps its id and task, all end at
/// one reading of the clock taken before the others, and each lasted until a
/// reading of the clock taken for it, as `orphan_seconds` counts it: zero or
/// more seconds, zero where its start does not read as RFC 3339 text.
pub fn close_orphaned_sessions(rows: &Vec<OpenSessionRow>) -> (closings: Vec<OrphanClosing>)
    ensures
        closings@.len() == rows@.len(),
        forall|i: int|
            #![trigger closings@[i]]
            0 <= i < rows@.len() ==> {
                &&& closings@[i].session_id@ == rows@[i].id@
                &&& closings@[i].task_id@ == rows@[i].task_id@
                &&& closings@[i].ended@ == closings@[0].ended@
                &&& closings@[i].duration >= 0
                &&& rfc3339_instant(rows@[i].started@) is Err ==> closings@[i].duration == 0
            },
        exists|now: Moment, readings: Seq<Moment>| #[trigger]
            closed_with(closings@, rows@, now, readings) && clock_reading(now),
{
    let now = current_moment();
    let n: usize = rows.len();
    let mut exits: Vec<Instant> = Vec::new();
    let ghost mut readings: Seq<Moment> = Seq::empty();
    let mut i: usize = 0;
    while i < n
        invariant
            n == rows@.len(),
            i <= n,
            exits@.len() == i,
            readings.len() == i,
            forall|k: int|
                #![trigger readings[k]]
                0 <= k < i ==> clock_reading(readings[k]) && exits@[k] == readings[k].instant,
        decreases n - i,
    {
        let exit = current_moment();
        exits.push(exit.instant);
        proof {
            readings = readings.push(exit);
            assert(clock_reading(readings[i as int]));
        }
        i = i + 1;
    }
    let closings = close_orphaned_sessions_at(rows, &now, &exits);
    proof {
        assert forall|k: int| #![trigger closings@[k]] 0 <= k < n implies {
            &&& closings@[k].ended@ == closings@[0].ended@
            &&& closings@[k].duration >= 0
            &&& rfc3339_instant(rows@[k].started@) is Err ==> closings@[k].duration == 0
        } by {
            assert(closings@[0].ended@ == now.text@);
            match rfc3339_instant(rows@[k].started@) {
                Ok(start) => crate::clock::lemma_session_seconds_nonnegative(exits@[k], start),
                Err(_) => {},
            }
        }
        assert(closed_with(closings@, rows@, now, readings));
    }
    closings
}

/// A session left open whose start reads as RFC 3339 text, closed at a
/// moment outside a leap second (as every reading of the clock is), lasted
/// the whole seconds from its start to that moment on the timeline, days
/// included, or zero where the moment is not after its start.
pub proof fn lemma_orphan_seconds_on_timeline(started: Seq<char>, exit: Instant)
    requires
        rfc3339_instant(started) matches Ok(s) && s.frac < NANOS_PER_SECOND,
        exit.frac < NANOS_PER_SECOND,
    ensures
        orphan_seconds(started, exit) == seconds_on_timeline(exit, rfc3339_instant(started)->Ok_0),
{
    lemma_session_seconds_on_timeline(exit, rfc3339_instant(started)->Ok_0);
}

/// The seconds that a finished session from `started` to `ended` adds to
/// its task: zero where either end does not read as RFC 3339 text or where
/// it did not last.
pub open spec fn span_seconds(started: Seq<char>, ended: Seq<char>) -> int {
    match (rfc3339_instant(started), rfc3339_instant(ended)) {
        (Ok(s), Ok(e)) => nonnegative_seconds(e, s),
        _ => 0,
    }
}

/// A finished session whose two ends read as RFC 3339 text outside a leap
/// second adds the whole seconds between them on the timeline, days
/// included, or zero where it does not end after it started.
pub proof fn lemma_span_seconds_on_timeline(started: Seq<char>, ended: Seq<char>)
    requires
        rfc3339_instant(started) matches Ok(s) && s.frac < NANOS_PER_SECOND,
        rfc3339_instant(ended) matches Ok(e) && e.frac < NANOS_PER_SECOND,
    ensures
        span_seconds(started, ended) == seconds_on_timeline(
            rfc3339_instant(ended)->Ok_0,
            rfc3339_instant(started)->Ok_0,
        ),
{
    lemma_session_seconds_on_timeline(rfc3339_instant(ended)->Ok_0, rfc3339_instant(started)->Ok_0);
}

/// The seconds that the finished sessions `spans` (start, end) add up to.
pub open spec fn finished_seconds(spans: Seq<(String, String)>) -> int
    decreases spans.len(),
{
    if spans.len() == 0 {
        0
    } else {
        finished_seconds(spans.drop_last()) + span_seconds(spans.last().0@, spans.last().1@)
    }
}

/// Finished sessions never take time away: the total is never negative,
/// and one more finished session never lowers it.
pub proof fn lemma_finished_seconds_grow(spans: Seq<(String, String)>, span: (String, String))
    ensures
        finished_seconds(spans) >= 0,
        finished_seconds(spans.push(span)) == finished_seconds(spans) + span_seconds(span.0@, span.1@),
        finished_seconds(spans.push(span)) >= finished_seconds(spans),
    decreases spans.len(),
{
    assert(spans.push(span).drop_last() =~= spans);
    lemma_span_seconds_bound(span.0@, span.1@);
    if spans.len() > 0 {
        lemma_finished_seconds_grow(spans.drop_last(), spans.last());
        assert(spans.drop_last().push(spans.last()) =~= spans);
    }
}

/// The seconds of the session still open, counted to `now`, for a task whose
/// status is `status`: only a `Running` task counts them, and only where the
/// open session's start reads as RFC 3339 text.
pub open spec fn active_seconds(status: Seq<char>, active_start: Option<Seq<char>>, now: Instant) -> int {
    if status == "Running"@ {
        match active_start {
            Some(start_text) => match rfc3339_instant(start_text) {
                Ok(start) => nonnegative_seconds(now, start),
                Err(_) => 0,
            },
            None => 0,
        }
    } else {
        0
    }
}

/// Whether a task with status `status` counts the time of its open session
/// from `active_start`: it is `Running` and the start reads as RFC 3339 text.
pub open spec fn open_session_counts(status: Seq<char>, active_start: Option<Seq<char>>) -> bool {
    &&& status == "Running"@
    &&& active_start is Some
    &&& rfc3339_instant(active_start->0) is Ok
}

/// A total of seconds, where it fits in an `i64`.
pub open spec fn fitting(total: int) -> Option<i64> {
    if total <= i64::MAX {
        Some(total as i64)
    } else {
        None
    }
}

proof fn lemma_nonnegative_seconds_bound(later: Instant, earlier: Instant)
    ensures
        0 <= nonnegative_seconds(later, earlier) <= 0x4_0000_0000_0000,
{
    let n: int = crate::clock::elapsed_nanos(later, earlier);
    assert(n <= 0x4_0000_0000_0000 * crate::clock::NANOS_PER_SECOND);
    assert(n / (crate::clock::NANOS_PER_SECOND as int) <= 0x4_0000_0000_0000) by (nonlinear_arith)
        requires
            n <= 0x4_0000_0000_0000 * 1_000_000_000,
    ;
}

proof fn lemma_span_seconds_bound(started: Seq<char>, ended: Seq<char>)
    ensures
        0 <= span_seconds(started, ended) <= 0x4_0000_0000_0000,
{
    match (rfc3339_instant(started), rfc3339_instant(ended)) {
        (Ok(s), Ok(e)) => lemma_nonnegative_seconds_bound(e, s),
        _ => {},
    }
}

/// The seconds tracked for a task: its finished sessions `spans`, and, for a
/// `Running` task, its open session from `active_start` to `now`. `None`
/// where the total does not fit in an `i64`.
pub fn tracked_seconds_at(
    spans: &Vec<(String, String)>,
    task_status: &str,
    active_start: &Option<String>,
    now: &Instant,
) -> (total: Option<i64>)
    ensures
        total == fitting(
            finished_seconds(spans@) + active_seconds(
                task_status@,
                text_option_view(*active_start),
                *now,
            ),
        ),
{
    let n: usize = spans.len();
    let mut sum: i128 = 0;
    let mut i: usize = 0;
    while i < n
        invariant
            n == spans@.len(),
            i <= n,
            sum == finished_seconds(spans@.take(i as int)),
            0 <= sum <= i * 0x4_0000_0000_0000,
        decreases n - i,
    {
        let (started, ended) = (&spans[i].0, &spans[i].1);
        proof {
            assert(spans@.take(i + 1).drop_last() =~= spans@.take(i as int));
            lemma_span_seconds_bound(started@, ended@);
        }
        let add: i64 = match (parse_rfc3339(started.as_str()), parse_rfc3339(ended.as_str())) {
            (Ok(s), Ok(e)) => session_seconds(&e, &s),
            _ => 0,
        };
        sum = sum + add as i128;
        i = i + 1;
    }
    assert(spans@.take(n as int) =~= spans@);
    if same_text(task_status, "Running") {
        if let Some(start_text) = active_start {
            if let Ok(start) = parse_rfc3339(start_text.as_str()) {
                let extra: i64 = session_seconds(now, &start);
                sum = sum + extra as i128;
            }
        }
    }
    if sum <= i64::MAX as i128 {
        Some(sum as i64)
    } else {
        None
    }
}

/// The seconds tracked for a task, counting its open session to now. Where
/// no open session counts (the task is not `Running`, or no open session
/// start reads as RFC 3339 text), the result is that of its finished
/// sessions alone; otherwise it is at least that. `None` where the total
/// does not fit in an `i64`.
pub fn tracked_seconds(spans: &Vec<(String, String)>, task_status: &str, active_start: &Option<String>) -> (total: Option<i64>)
    ensures
        !open_session_counts(task_status@, text_option_view(*active_start)) ==> total == fitting(
            finished_seconds(spans@),
        ),
        total matches Some(t) ==> t >= finished_seconds(spans@),
        finished_seconds(spans@) > i64::MAX ==> total is None,
        exists|now: Moment|
            #[trigger] clock_reading(now) && total == fitting(
                finished_seconds(spans@) + active_seconds(
                    task_status@,
                    text_option_view(*active_start),
                    now.instant,
                ),
            ),
{
    let now = current_moment();
    let total = tracked_seconds_at(spans, task_status, active_start, &now.instant);
    assert(clock_reading(now));
    total
}

} // verus!
