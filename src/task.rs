use vstd::prelude::*;

verus! {

/// Seconds in one day.
pub const SECONDS_PER_DAY: i64 = 86400;

/// The denominator of a probability: a probability `p` stands for `p / 1_000_000`.
pub const PROBABILITY_SCALE: u32 = 1000000;

/// Timestamps are seconds since the Unix epoch and lie in `[-MAX_TIME, MAX_TIME]`,
/// so that an offset of any number of days that fits in an `i16` can be added.
pub const MAX_TIME: i64 = 4611686018427387904;

pub open spec fn valid_time(t: i64) -> bool {
    -MAX_TIME <= t <= MAX_TIME
}

/// `t` moved by `days` whole days.
pub open spec fn add_days(t: i64, days: i16) -> int {
    t + days * SECONDS_PER_DAY
}

pub fn plus_days(t: i64, days: i16) -> (r: i64)
    requires
        valid_time(t),
    ensures
        r == add_days(t, days),
{
    t + (days as i64) * SECONDS_PER_DAY
}

/// The fields that every task has. `factor` is a weight in thousandths.
pub struct Task {
    pub title: String,
    pub description: String,
    pub factor: i64,
}

pub struct TaskView {
    pub title: Seq<char>,
    pub description: Seq<char>,
    pub factor: i64,
}

impl View for Task {
    type V = TaskView;

    open spec fn view(&self) -> TaskView {
        TaskView { title: self.title@, description: self.description@, factor: self.factor }
    }
}

impl Task {
    pub fn copy(&self) -> (r: Task)
        ensures
            r@ == self@,
    {
        Task {
            title: self.title.clone(),
            description: self.description.clone(),
            factor: self.factor,
        }
    }
}

/// A committed task with the time it is due.
pub struct ActiveTask {
    pub task: Task,
    pub due: i64,
}

pub struct ActiveTaskView {
    pub task: TaskView,
    pub due: i64,
}

impl View for ActiveTask {
    type V = ActiveTaskView;

    open spec fn view(&self) -> ActiveTaskView {
        ActiveTaskView { task: self.task@, due: self.due }
    }
}

impl ActiveTask {
    pub fn copy(&self) -> (r: ActiveTask)
        ensures
            r@ == self@,
    {
        ActiveTask { task: self.task.copy(), due: self.due }
    }
}

/// A candidate task. It may be promoted once `cooling_until` has passed, with
/// chance `probability / PROBABILITY_SCALE`; it is then due `due_days` days
/// after the promotion. `cool_down` is its cool-down period in days.
pub struct PooledTask {
    pub task: Task,
    pub probability: u32,
    pub cool_down: i16,
    pub due_days: i16,
    pub cooling_until: i64,
}

pub struct PooledTaskView {
    pub task: TaskView,
    pub probability: u32,
    pub cool_down: i16,
    pub due_days: i16,
    pub cooling_until: i64,
}

impl View for PooledTask {
    type V = PooledTaskView;

    open spec fn view(&self) -> PooledTaskView {
        PooledTaskView {
            task: self.task@,
            probability: self.probability,
            cool_down: self.cool_down,
            due_days: self.due_days,
            cooling_until: self.cooling_until,
        }
    }
}

impl PooledTask {
    pub fn copy(&self) -> (r: PooledTask)
        ensures
            r@ == self@,
    {
        PooledTask {
            task: self.task.copy(),
            probability: self.probability,
            cool_down: self.cool_down,
            due_days: self.due_days,
            cooling_until: self.cooling_until,
        }
    }
}

pub open spec fn actives_view(v: Seq<ActiveTask>) -> Seq<ActiveTaskView> {
    v.map_values(|a: ActiveTask| a@)
}

pub open spec fn pooled_view(v: Seq<PooledTask>) -> Seq<PooledTaskView> {
    v.map_values(|p: PooledTask| p@)
}

pub fn copy_actives(v: &Vec<ActiveTask>) -> (r: Vec<ActiveTask>)
    ensures
        actives_view(r@) == actives_view(v@),
{
    let mut out: Vec<ActiveTask> = Vec::new();
    let mut i: usize = 0;
    while i < v.len()
        invariant
            i <= v@.len(),
            out@.len() == i,
            forall|k: int| 0 <= k < i ==> #[trigger] out@[k]@ == v@[k]@,
        decreases v@.len() - i,
    {
        out.push(v[i].copy());
        i += 1;
    }
    assert(actives_view(out@) =~= actives_view(v@));
    out
}

pub fn copy_pooled(v: &Vec<PooledTask>) -> (r: Vec<PooledTask>)
    ensures
        pooled_view(r@) == pooled_view(v@),
{
    let mut out: Vec<PooledTask> = Vec::new();
    let mut i: usize = 0;
    while i < v.len()
        invariant
            i <= v@.len(),
            out@.len() == i,
            forall|k: int| 0 <= k < i ==> #[trigger] out@[k]@ == v@[k]@,
        decreases v@.len() - i,
    {
        out.push(v[i].copy());
        i += 1;
    }
    assert(pooled_view(out@) =~= pooled_view(v@));
    out
}

/// One change made to the tasks.
pub enum TaskAction {
    ScheduleTask(ActiveTask),
    PoolTask(PooledTask),
    CompleteTask(ActiveTask),
    ActivateTask(Vec<ActiveTask>),
}

pub enum TaskActionView {
    ScheduleTask(ActiveTaskView),
    PoolTask(PooledTaskView),
    CompleteTask(ActiveTaskView),
    ActivateTask(Seq<ActiveTaskView>),
}

impl View for TaskAction {
    type V = TaskActionView;

    open spec fn view(&self) -> TaskActionView {
        match self {
            TaskAction::ScheduleTask(a) => TaskActionView::ScheduleTask(a@),
            TaskAction::PoolTask(p) => TaskActionView::PoolTask(p@),
            TaskAction::CompleteTask(a) => TaskActionView::CompleteTask(a@),
            TaskAction::ActivateTask(v) => TaskActionView::ActivateTask(actives_view(v@)),
        }
    }
}

/// A change together with the time it was made.
pub struct LogEntry {
    pub dttm: i64,
    pub entry: TaskAction,
}

pub struct LogEntryView {
    pub dttm: i64,
    pub entry: TaskActionView,
}

impl View for LogEntry {
    type V = LogEntryView;

    open spec fn view(&self) -> LogEntryView {
        LogEntryView { dttm: self.dttm, entry: self.entry@ }
    }
}

pub open spec fn entries_view(v: Seq<LogEntry>) -> Seq<LogEntryView> {
    v.map_values(|e: LogEntry| e@)
}

} // verus!
