use vstd::prelude::*;

use crate::outside::{clock_seconds, draw_below};
use crate::store::{
    TaskError, TaskStat, TaskStatView, has_active, has_pooled, kept_all, lemma_zero_draw_promotes,
    new_active, new_pooled, promote, promoted_all,
};
use crate::task::{
    ActiveTask, ActiveTaskView, LogEntry, LogEntryView, PooledTask, TaskAction, TaskActionView,
    PROBABILITY_SCALE, actives_view, add_days, copy_actives, copy_pooled, entries_view,
    valid_time,
};

verus! {

pub struct TaskLogView {
    pub stat: TaskStatView,
    pub log: Seq<LogEntryView>,
}

/// The tasks together with the history of every change made to them, oldest
/// first. Each change updates the tasks and appends one entry.
pub struct TaskLog {
    pub task_stat: TaskStat,
    pub log: Vec<LogEntry>,
}

impl View for TaskLog {
    type V = TaskLogView;

    open spec fn view(&self) -> TaskLogView {
        TaskLogView { stat: self.task_stat@, log: entries_view(self.log@) }
    }
}

/// The position of the active task titled `title`, where there is one.
pub open spec fn active_index(s: Seq<ActiveTaskView>, title: Seq<char>) -> int {
    choose|i: int| 0 <= i < s.len() && #[trigger] s[i].task.title == title
}

pub open spec fn log_wf(l: TaskLogView) -> bool {
    &&& crate::store::active_titles_distinct(l.stat.active)
    &&& crate::store::pooled_titles_distinct(l.stat.pooled)
}

/// `l` after scheduling an active task at `now`.
pub open spec fn schedule_result(
    l: TaskLogView,
    now: i64,
    title: Seq<char>,
    description: Seq<char>,
    factor: i64,
    due_in: i16,
) -> TaskLogView {
    if has_active(l.stat.active, title) {
        l
    } else {
        let a = new_active(title, description, factor, add_days(now, due_in) as i64);
        TaskLogView {
            stat: TaskStatView { active: l.stat.active.push(a), pooled: l.stat.pooled },
            log: l.log.push(LogEntryView { dttm: now, entry: TaskActionView::ScheduleTask(a) }),
        }
    }
}

/// `l` after pooling a task at `now`.
pub open spec fn pool_result(
    l: TaskLogView,
    now: i64,
    title: Seq<char>,
    description: Seq<char>,
    factor: i64,
    probability: u32,
    cool_down: i16,
    due_days: i16,
) -> TaskLogView {
    if has_pooled(l.stat.pooled, title) {
        l
    } else {
        let p = new_pooled(title, description, factor, probability, cool_down, due_days, now);
        TaskLogView {
            stat: TaskStatView { active: l.stat.active, pooled: l.stat.pooled.push(p) },
            log: l.log.push(LogEntryView { dttm: now, entry: TaskActionView::PoolTask(p) }),
        }
    }
}

/// `l` after completing the active task titled `title` at `now`.
pub open spec fn mark_done_result(l: TaskLogView, now: i64, title: Seq<char>) -> TaskLogView {
    if !has_active(l.stat.active, title) {
        l
    } else {
        let i = active_index(l.stat.active, title);
        TaskLogView {
            stat: TaskStatView { active: l.stat.active.remove(i), pooled: l.stat.pooled },
            log: l.log.push(
                LogEntryView { dttm: now, entry: TaskActionView::CompleteTask(l.stat.active[i]) },
            ),
        }
    }
}

/// `l` after an activation at `now` with one draw per pooled task.
pub open spec fn activate_result(l: TaskLogView, now: i64, draws: Seq<u32>) -> TaskLogView {
    let promoted = promoted_all(l.stat.active, l.stat.pooled, draws, now);
    TaskLogView {
        stat: TaskStatView {
            active: l.stat.active + promoted,
            pooled: kept_all(l.stat.active, l.stat.pooled, draws, now),
        },
        log: l.log.push(LogEntryView { dttm: now, entry: TaskActionView::ActivateTask(promoted) }),
    }
}


/// Scheduling a task and then completing it by its title succeeds: the title
/// is then gone from the active tasks, and exactly one entry is appended to
/// the log, a completion of a task with that title.
pub proof fn lemma_schedule_then_mark_done(
    l: TaskLogView,
    now: i64,
    title: Seq<char>,
    description: Seq<char>,
    factor: i64,
    due_in: i16,
    later: i64,
)
    requires
        log_wf(l),
    ensures
        ({
            let l1 = schedule_result(l, now, title, description, factor, due_in);
            let l2 = mark_done_result(l1, later, title);
            &&& has_active(l1.stat.active, title)
            &&& !has_active(l2.stat.active, title)
            &&& l2.stat.pooled == l1.stat.pooled
            &&& l2.log.len() == l1.log.len() + 1
            &&& l2.log.take(l1.log.len() as int) == l1.log
            &&& l2.log.last().dttm == later
            &&& l2.log.last().entry matches TaskActionView::CompleteTask(a) && a.task.title == title
        }),
{
    let l1 = schedule_result(l, now, title, description, factor, due_in);
    let s = l1.stat.active;
    if !has_active(l.stat.active, title) {
        let last = s.len() - 1;
        assert(s[last].task.title == title);
        assert forall|i: int, j: int| 0 <= i < j < s.len() implies #[trigger] s[i].task.title
            != #[trigger] s[j].task.title by {
            if j == last {
                assert(s[i] == l.stat.active[i]);
            } else {
                assert(s[i] == l.stat.active[i]);
                assert(s[j] == l.stat.active[j]);
            }
        }
    }
    assert(has_active(s, title));
    let c = active_index(s, title);
    let r = s.remove(c);
    let l2 = mark_done_result(l1, later, title);
    assert(l2.stat.active == r);
    assert forall|k: int| 0 <= k < r.len() implies #[trigger] r[k].task.title != title by {
        if k < c {
            assert(r[k] == s[k]);
        } else {
            assert(r[k] == s[k + 1]);
        }
    }
    assert(l2.log.take(l1.log.len() as int) =~= l1.log);
}

/// The log records calls in the order they were made: scheduling, pooling and
/// activating, in turn, append a scheduling, a pooling and an activation entry,
/// each stamped with the time of its call.
pub proof fn lemma_log_follows_calls(
    l: TaskLogView,
    now1: i64,
    title1: Seq<char>,
    description1: Seq<char>,
    factor1: i64,
    due_in: i16,
    now2: i64,
    title2: Seq<char>,
    description2: Seq<char>,
    factor2: i64,
    probability: u32,
    cool_down: i16,
    due_days: i16,
    now3: i64,
    draws: Seq<u32>,
)
    requires
        !has_active(l.stat.active, title1),
        !has_pooled(l.stat.pooled, title2),
    ensures
        ({
            let l1 = schedule_result(l, now1, title1, description1, factor1, due_in);
            let l2 = pool_result(
                l1,
                now2,
                title2,
                description2,
                factor2,
                probability,
                cool_down,
                due_days,
            );
            let l3 = activate_result(l2, now3, draws);
            let n = l.log.len() as int;
            &&& l3.log.len() == n + 3
            &&& l3.log.take(n) == l.log
            &&& l3.log[n].dttm == now1
            &&& l3.log[n].entry is ScheduleTask
            &&& l3.log[n + 1].dttm == now2
            &&& l3.log[n + 1].entry is PoolTask
            &&& l3.log[n + 2].dttm == now3
            &&& l3.log[n + 2].entry is ActivateTask
        }),
{
    let l1 = schedule_result(l, now1, title1, description1, factor1, due_in);
    let l2 = pool_result(l1, now2, title2, description2, factor2, probability, cool_down, due_days);
    let l3 = activate_result(l2, now3, draws);
    assert(l3.log.take(l.log.len() as int) =~= l.log);
}

/// When the pooled task of the calls above can win its draw (its title is
/// fresh in both collections, the activation comes no earlier than the
/// pooling, its probability is positive and its draw is zero), the
/// activation entry lists it as promoted.
pub proof fn lemma_log_batch_holds_pooled(
    l: TaskLogView,
    now1: i64,
    title1: Seq<char>,
    description1: Seq<char>,
    factor1: i64,
    due_in: i16,
    now2: i64,
    title2: Seq<char>,
    description2: Seq<char>,
    factor2: i64,
    probability: u32,
    cool_down: i16,
    due_days: i16,
    now3: i64,
    draws: Seq<u32>,
)
    requires
        log_wf(l),
        !has_active(l.stat.active, title1),
        !has_active(l.stat.active, title2),
        !has_pooled(l.stat.pooled, title2),
        title1 != title2,
        now2 <= now3,
        probability > 0,
        draws.len() == l.stat.pooled.len() + 1,
        draws[draws.len() - 1] == 0,
    ensures
        ({
            let l1 = schedule_result(l, now1, title1, description1, factor1, due_in);
            let l2 = pool_result(
                l1,
                now2,
                title2,
                description2,
                factor2,
                probability,
                cool_down,
                due_days,
            );
            let l3 = activate_result(l2, now3, draws);
            let n = l.log.len() as int;
            let p = new_pooled(title2, description2, factor2, probability, cool_down, due_days, now2);
            &&& l3.log[n + 2].entry matches TaskActionView::ActivateTask(batch) && batch.contains(
                promote(p, now3),
            )
            &&& l3.stat.active.contains(promote(p, now3))
        }),
{
    let l1 = schedule_result(l, now1, title1, description1, factor1, due_in);
    let l2 = pool_result(l1, now2, title2, description2, factor2, probability, cool_down, due_days);
    let a1 = l1.stat.active;
    let p2 = l2.stat.pooled;
    let p = new_pooled(title2, description2, factor2, probability, cool_down, due_days, now2);
    let last = a1.len() - 1;
    assert forall|i: int, j: int| 0 <= i < j < a1.len() implies #[trigger] a1[i].task.title
        != #[trigger] a1[j].task.title by {
        if j == last {
            assert(a1[i] == l.stat.active[i]);
        } else {
            assert(a1[i] == l.stat.active[i]);
            assert(a1[j] == l.stat.active[j]);
        }
    }
    let k = p2.len() - 1;
    assert forall|i: int, j: int| 0 <= i < j < p2.len() implies #[trigger] p2[i].task.title
        != #[trigger] p2[j].task.title by {
        if j == k {
            assert(p2[i] == l.stat.pooled[i]);
        } else {
            assert(p2[i] == l.stat.pooled[i]);
            assert(p2[j] == l.stat.pooled[j]);
        }
    }
    assert(!has_active(a1, title2)) by {
        assert forall|i: int| 0 <= i < a1.len() implies #[trigger] a1[i].task.title != title2 by {
            if i < last {
                assert(a1[i] == l.stat.active[i]);
            }
        }
    }
    assert(p2[k] == p);
    lemma_zero_draw_promotes(a1, p2, draws, now3, k);
    let batch = promoted_all(a1, p2, draws, now3);
    let j = choose|j: int| 0 <= j < batch.len() && batch[j] == promote(p, now3);
    assert((a1 + batch)[a1.len() + j] == batch[j]);
}

impl TaskLog {
    pub open spec fn wf(&self) -> bool {
        self.task_stat.wf()
    }

    pub fn new() -> (r: TaskLog)
        ensures
            r.wf(),
            r@.stat.active.len() == 0,
            r@.stat.pooled.len() == 0,
            r@.log.len() == 0,
    {
        TaskLog { task_stat: TaskStat::new(), log: Vec::new() }
    }

    /// Schedules an active task due `due_in` days after `now` and logs it.
    /// Refused, with nothing changed, when an active task has the title.
    pub fn add_active_task_at(
        &mut self,
        now: i64,
        title: String,
        description: String,
        factor: i64,
        due_in: i16,
    ) -> (r: Result<(), TaskError>)
        requires
            old(self).wf(),
            valid_time(now),
        ensures
            final(self).wf(),
            final(self)@ == schedule_result(old(self)@, now, title@, description@, factor, due_in),
            r is Err <==> has_active(old(self)@.stat.active, title@),
            r is Err ==> r == Err::<(), TaskError>(TaskError::DuplicateTitle),
    {
        match self.task_stat.add_active_task_at(now, title, description, factor, due_in) {
            Err(e) => Err(e),
            Ok(a) => {
                let ghost before = self.log@;
                self.log.push(LogEntry { dttm: now, entry: TaskAction::ScheduleTask(a) });
                assert(entries_view(self.log@) =~= entries_view(before).push(self.log@.last()@));
                Ok(())
            },
        }
    }

    /// Adds a pooled task, eligible from `now` on, and logs it. Refused, with
    /// nothing changed, when a pooled task has the title.
    pub fn add_pooled_task_at(
        &mut self,
        now: i64,
        title: String,
        description: String,
        factor: i64,
        probability: u32,
        cool_down: i16,
        due_days: i16,
    ) -> (r: Result<(), TaskError>)
        requires
            old(self).wf(),
        ensures
            final(self).wf(),
            final(self)@ == pool_result(
                old(self)@,
                now,
                title@,
                description@,
                factor,
                probability,
                cool_down,
                due_days,
            ),
            r is Err <==> has_pooled(old(self)@.stat.pooled, title@),
            r is Err ==> r == Err::<(), TaskError>(TaskError::DuplicateTitle),
    {
        match self.task_stat.add_pooled_task_at(
            now,
            title,
            description,
            factor,
            probability,
            cool_down,
            due_days,
        ) {
            Err(e) => Err(e),
            Ok(p) => {
                let ghost before = self.log@;
                self.log.push(LogEntry { dttm: now, entry: TaskAction::PoolTask(p) });
                assert(entries_view(self.log@) =~= entries_view(before).push(self.log@.last()@));
                Ok(())
            },
        }
    }

    /// Completes the active task titled `title` at `now`: it leaves the active
    /// tasks and the completion is logged. Returns whether there was one; if
    /// not, nothing changes.
    pub fn mark_done_at(&mut self, now: i64, title: String) -> (r: bool)
        requires
            old(self).wf(),
        ensures
            final(self).wf(),
            r == has_active(old(self)@.stat.active, title@),
            final(self)@ == mark_done_result(old(self)@, now, title@),
            !r ==> *final(self) == *old(self),
    {
        match self.task_stat.remove_active(&title) {
            None => false,
            Some(a) => {
                let ghost before = self.log@;
                let ghost s0 = old(self)@.stat.active;
                proof {
                    let i = choose|i: int|
                        0 <= i < s0.len() && s0[i].task.title == title@ && a@ == s0[i]
                            && self@.stat.active == s0.remove(i);
                    let c = active_index(s0, title@);
                    assert(s0[c].task.title == title@);
                    assert(c == i);
                }
                self.log.push(LogEntry { dttm: now, entry: TaskAction::CompleteTask(a) });
                assert(entries_view(self.log@) =~= entries_view(before).push(self.log@.last()@));
                true
            },
        }
    }

    /// Activation at `now`, with `draws[i]` the draw of the `i`-th pooled task:
    /// promotes the winners (see `wins`), logs them as one entry, even when
    /// there are none, and returns them.
    pub fn activate_at(&mut self, now: i64, draws: &Vec<u32>) -> (r: Vec<ActiveTask>)
        requires
            old(self).wf(),
            valid_time(now),
            draws@.len() == old(self)@.stat.pooled.len(),
        ensures
            final(self).wf(),
            final(self)@ == activate_result(old(self)@, now, draws@),
            actives_view(r@) == promoted_all(
                old(self)@.stat.active,
                old(self)@.stat.pooled,
                draws@,
                now,
            ),
    {
        let promoted = self.task_stat.activate_at(now, draws);
        let ghost before = self.log@;
        self.log.push(LogEntry { dttm: now, entry: TaskAction::ActivateTask(copy_actives(&promoted)) });
        assert(entries_view(self.log@) =~= entries_view(before).push(self.log@.last()@));
        promoted
    }

    /// Schedules an active task at `now`, which may be any value the clock
    /// gave: a time out of range is refused with nothing changed.
    pub fn add_active_task_checked(
        &mut self,
        now: i64,
        title: String,
        description: String,
        factor: i64,
        due_in: i16,
    ) -> (r: Result<(), TaskError>)
        requires
            old(self).wf(),
        ensures
            final(self).wf(),
            r == Err::<(), TaskError>(TaskError::ClockOutOfRange) <==> !valid_time(now),
            !valid_time(now) ==> final(self)@ == old(self)@,
            valid_time(now) ==> final(self)@ == schedule_result(
                old(self)@,
                now,
                title@,
                description@,
                factor,
                due_in,
            ) && (r is Err <==> has_active(old(self)@.stat.active, title@)) && (r is Err ==> r
                == Err::<(), TaskError>(TaskError::DuplicateTitle)),
    {
        if !(-crate::task::MAX_TIME <= now && now <= crate::task::MAX_TIME) {
            return Err(TaskError::ClockOutOfRange);
        }
        self.add_active_task_at(now, title, description, factor, due_in)
    }

    /// Activation at `now`, which may be any value the clock gave: a time
    /// out of range is refused with nothing changed.
    pub fn activate_checked(&mut self, now: i64, draws: &Vec<u32>) -> (r: Result<
        Vec<ActiveTask>,
        TaskError,
    >)
        requires
            old(self).wf(),
            draws@.len() == old(self)@.stat.pooled.len(),
        ensures
            final(self).wf(),
            r is Err <==> !valid_time(now),
            r is Err ==> r == Err::<Vec<ActiveTask>, TaskError>(TaskError::ClockOutOfRange)
                && final(self)@ == old(self)@,
            r is Ok ==> final(self)@ == activate_result(old(self)@, now, draws@) && actives_view(
                r->Ok_0@,
            ) == promoted_all(old(self)@.stat.active, old(self)@.stat.pooled, draws@, now),
    {
        if !(-crate::task::MAX_TIME <= now && now <= crate::task::MAX_TIME) {
            return Err(TaskError::ClockOutOfRange);
        }
        Ok(self.activate_at(now, draws))
    }

    /// Schedules an active task due `due_in` days from now, by the clock.
    pub fn add_active_task(
        &mut self,
        title: String,
        description: String,
        factor: i64,
        due_in: i16,
    ) -> (r: Result<(), TaskError>)
        requires
            old(self).wf(),
        ensures
            final(self).wf(),
            r == Err::<(), TaskError>(TaskError::ClockOutOfRange) ==> final(self)@ == old(self)@,
            r == Err::<(), TaskError>(TaskError::DuplicateTitle) <==> has_active(
                old(self)@.stat.active,
                title@,
            ) && !(r == Err::<(), TaskError>(TaskError::ClockOutOfRange)),
            r is Ok ==> exists|now: i64|
                valid_time(now) && #[trigger] schedule_result(
                    old(self)@,
                    now,
                    title@,
                    description@,
                    factor,
                    due_in,
                ) == final(self)@,
    {
        let now = clock_seconds();
        self.add_active_task_checked(now, title, description, factor, due_in)
    }

    /// Adds a pooled task, eligible from now on, by the clock.
    pub fn add_pooled_task(
        &mut self,
        title: String,
        description: String,
        factor: i64,
        probability: u32,
        cool_down: i16,
        due_days: i16,
    ) -> (r: Result<(), TaskError>)
        requires
            old(self).wf(),
        ensures
            final(self).wf(),
            r is Err <==> has_pooled(old(self)@.stat.pooled, title@),
            exists|now: i64|
                final(self)@ == pool_result(
                    old(self)@,
                    now,
                    title@,
                    description@,
                    factor,
                    probability,
                    cool_down,
                    due_days,
                ),
    {
        let now = clock_seconds();
        self.add_pooled_task_at(now, title, description, factor, probability, cool_down, due_days)
    }

    /// Completes the active task titled `title`, stamped with the clock.
    pub fn mark_done(&mut self, title: String) -> (r: bool)
        requires
            old(self).wf(),
        ensures
            final(self).wf(),
            r == has_active(old(self)@.stat.active, title@),
            exists|now: i64| final(self)@ == mark_done_result(old(self)@, now, title@),
            !r ==> *final(self) == *old(self),
    {
        let now = clock_seconds();
        self.mark_done_at(now, title)
    }

    /// Activation by the clock. Each pooled task whose cool-down has passed
    /// gets one uniform draw from the thread's random source, in pool order;
    /// no value is drawn for a task still cooling down.
    pub fn activate(&mut self) -> (r: Result<Vec<ActiveTask>, TaskError>)
        requires
            old(self).wf(),
        ensures
            final(self).wf(),
            r is Err ==> r == Err::<Vec<ActiveTask>, TaskError>(TaskError::ClockOutOfRange)
                && final(self)@ == old(self)@,
            r is Ok ==> exists|now: i64, draws: Seq<u32>|
                valid_time(now) && draws.len() == old(self)@.stat.pooled.len() && (forall|i: int|
                    0 <= i < draws.len() ==> #[trigger] draws[i] < PROBABILITY_SCALE) && (forall|
                    i: int,
                |
                    0 <= i < draws.len() && old(self)@.stat.pooled[i].cooling_until > now
                        ==> #[trigger] draws[i] == 0)
                    && #[trigger] activate_result(old(self)@, now, draws) == final(self)@ && actives_view(
                    r->Ok_0@,
                ) == promoted_all(old(self)@.stat.active, old(self)@.stat.pooled, draws, now),
    {
        let now = clock_seconds();
        let mut draws: Vec<u32> = Vec::new();
        let n = self.task_stat.pooled.len();
        while draws.len() < n
            invariant
                n == self@.stat.pooled.len(),
                draws@.len() <= n,
                forall|i: int| 0 <= i < draws@.len() ==> #[trigger] draws@[i] < PROBABILITY_SCALE,
                forall|i: int|
                    0 <= i < draws@.len() && self@.stat.pooled[i].cooling_until > now
                        ==> #[trigger] draws@[i] == 0,
            decreases n - draws@.len(),
        {
            let i = draws.len();
            if self.task_stat.pooled[i].cooling_until <= now {
                draws.push(draw_below(PROBABILITY_SCALE));
            } else {
                draws.push(0);
            }
        }
        let r = self.activate_checked(now, &draws);
        assert(r is Ok ==> valid_time(now) && #[trigger] activate_result(old(self)@, now, draws@) == self@);
        r
    }

    /// A copy of the active tasks, in order.
    pub fn all_actives(&self) -> (r: Vec<ActiveTask>)
        ensures
            actives_view(r@) == self@.stat.active,
    {
        copy_actives(&self.task_stat.active)
    }

    /// A copy of the pooled tasks, in order.
    pub fn all_pooled(&self) -> (r: Vec<PooledTask>)
        ensures
            crate::task::pooled_view(r@) == self@.stat.pooled,
    {
        copy_pooled(&self.task_stat.pooled)
    }

    /// The log, oldest entry first.
    pub fn log_entries(&self) -> (r: &Vec<LogEntry>)
        ensures
            entries_view(r@) == self@.log,
    {
        &self.log
    }
}

} // verus!
