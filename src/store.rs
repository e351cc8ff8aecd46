use vstd::prelude::*;

use crate::task::{
    ActiveTask, ActiveTaskView, PooledTask, PooledTaskView, Task, TaskView, actives_view,
    add_days, plus_days, pooled_view, valid_time,
};

verus! {

/// Why a change to the tasks was refused.
#[derive(PartialEq, Eq, Structural, Clone, Copy, Debug)]
pub enum TaskError {
    /// A task of that title is already in the collection.
    DuplicateTitle,
    /// The clock gave a time outside the range that timestamps may take.
    ClockOutOfRange,
}

pub open spec fn active_titles_distinct(s: Seq<ActiveTaskView>) -> bool {
    forall|i: int, j: int|
        0 <= i < j < s.len() ==> #[trigger] s[i].task.title != #[trigger] s[j].task.title
}

pub open spec fn pooled_titles_distinct(s: Seq<PooledTaskView>) -> bool {
    forall|i: int, j: int|
        0 <= i < j < s.len() ==> #[trigger] s[i].task.title != #[trigger] s[j].task.title
}

pub open spec fn has_active(s: Seq<ActiveTaskView>, title: Seq<char>) -> bool {
    exists|i: int| 0 <= i < s.len() && #[trigger] s[i].task.title == title
}

pub open spec fn has_pooled(s: Seq<PooledTaskView>, title: Seq<char>) -> bool {
    exists|i: int| 0 <= i < s.len() && #[trigger] s[i].task.title == title
}

/// Whether pooled task `p`, with random draw `draw`, is promoted at `now`:
/// its cool-down has passed, the draw falls under its probability, and no
/// active task has its title.
pub open spec fn wins(p: PooledTaskView, draw: u32, now: i64, active: Seq<ActiveTaskView>) -> bool {
    &&& p.cooling_until <= now
    &&& draw < p.probability
    &&& !has_active(active, p.task.title)
}

/// The active task that `p` becomes when promoted at `now`.
pub open spec fn promote(p: PooledTaskView, now: i64) -> ActiveTaskView {
    ActiveTaskView { task: p.task, due: add_days(now, p.due_days) as i64 }
}

/// The tasks promoted among the first `n` pooled tasks, in pool order.
pub open spec fn promoted_prefix(
    active: Seq<ActiveTaskView>,
    pooled: Seq<PooledTaskView>,
    draws: Seq<u32>,
    now: i64,
    n: nat,
) -> Seq<ActiveTaskView>
    decreases n,
{
    if n == 0 {
        Seq::empty()
    } else {
        let prev = promoted_prefix(active, pooled, draws, now, (n - 1) as nat);
        let p = pooled[n - 1];
        if wins(p, draws[n - 1], now, active) {
            prev.push(promote(p, now))
        } else {
            prev
        }
    }
}

/// The tasks that stay in the pool among the first `n`, in pool order.
pub open spec fn kept_prefix(
    active: Seq<ActiveTaskView>,
    pooled: Seq<PooledTaskView>,
    draws: Seq<u32>,
    now: i64,
    n: nat,
) -> Seq<PooledTaskView>
    decreases n,
{
    if n == 0 {
        Seq::empty()
    } else {
        let prev = kept_prefix(active, pooled, draws, now, (n - 1) as nat);
        let p = pooled[n - 1];
        if wins(p, draws[n - 1], now, active) {
            prev
        } else {
            prev.push(p)
        }
    }
}

pub open spec fn promoted_all(
    active: Seq<ActiveTaskView>,
    pooled: Seq<PooledTaskView>,
    draws: Seq<u32>,
    now: i64,
) -> Seq<ActiveTaskView> {
    promoted_prefix(active, pooled, draws, now, pooled.len())
}

pub open spec fn kept_all(
    active: Seq<ActiveTaskView>,
    pooled: Seq<PooledTaskView>,
    draws: Seq<u32>,
    now: i64,
) -> Seq<PooledTaskView> {
    kept_prefix(active, pooled, draws, now, pooled.len())
}


/// Promotions and kept tasks come from distinct pooled titles, so titles stay
/// unique on both sides.
pub proof fn lemma_activation_titles(
    active: Seq<ActiveTaskView>,
    pooled: Seq<PooledTaskView>,
    draws: Seq<u32>,
    now: i64,
    n: nat,
)
    requires
        n <= pooled.len(),
        n <= draws.len(),
        active_titles_distinct(active),
        pooled_titles_distinct(pooled),
    ensures
        forall|k: int|
            0 <= k < promoted_prefix(active, pooled, draws, now, n).len() ==> exists|j: int|
                0 <= j < n && #[trigger] promoted_prefix(active, pooled, draws, now, n)[k].task.title
                    == pooled[j].task.title,
        forall|k: int|
            0 <= k < kept_prefix(active, pooled, draws, now, n).len() ==> exists|j: int|
                0 <= j < n && #[trigger] kept_prefix(active, pooled, draws, now, n)[k].task.title
                    == pooled[j].task.title,
        active_titles_distinct(active + promoted_prefix(active, pooled, draws, now, n)),
        pooled_titles_distinct(kept_prefix(active, pooled, draws, now, n)),
    decreases n,
{
    if n > 0 {
        let m = (n - 1) as nat;
        lemma_activation_titles(active, pooled, draws, now, m);
        let prev = promoted_prefix(active, pooled, draws, now, m);
        let prevk = kept_prefix(active, pooled, draws, now, m);
        let p = pooled[m as int];
        let t = p.task.title;
        assert forall|k: int| 0 <= k < prev.len() implies #[trigger] prev[k].task.title != t by {
            let j = choose|j: int| 0 <= j < m && #[trigger] prev[k].task.title == pooled[j].task.title;
            assert(pooled[j].task.title != pooled[m as int].task.title);
        }
        assert forall|k: int| 0 <= k < prevk.len() implies #[trigger] prevk[k].task.title != t by {
            let j = choose|j: int| 0 <= j < m && #[trigger] prevk[k].task.title == pooled[j].task.title;
            assert(pooled[j].task.title != pooled[m as int].task.title);
        }
        if wins(p, draws[m as int], now, active) {
            let s = prev.push(promote(p, now));
            assert(promoted_prefix(active, pooled, draws, now, n) == s);
            let c = active + s;
            assert forall|i: int, j: int| 0 <= i < j < c.len() implies #[trigger] c[i].task.title
                != #[trigger] c[j].task.title by {
                if j == c.len() - 1 {
                    if i < active.len() {
                        assert(c[i] == active[i]);
                    } else {
                        assert(c[i] == prev[i - active.len()]);
                    }
                } else {
                    assert(c[i] == (active + prev)[i]);
                    assert(c[j] == (active + prev)[j]);
                }
            }
            assert forall|k: int| 0 <= k < s.len() implies exists|j: int|
                0 <= j < n && #[trigger] s[k].task.title == pooled[j].task.title by {
                if k == s.len() - 1 {
                    assert(s[k].task.title == pooled[m as int].task.title);
                } else {
                    assert(s[k] == prev[k]);
                }
            }
        } else {
            let s = prevk.push(p);
            assert(kept_prefix(active, pooled, draws, now, n) == s);
            assert forall|i: int, j: int| 0 <= i < j < s.len() implies #[trigger] s[i].task.title
                != #[trigger] s[j].task.title by {
                if j == s.len() - 1 {
                    assert(s[i] == prevk[i]);
                } else {
                    assert(s[i] == prevk[i]);
                    assert(s[j] == prevk[j]);
                }
            }
            assert forall|k: int| 0 <= k < s.len() implies exists|j: int|
                0 <= j < n && #[trigger] s[k].task.title == pooled[j].task.title by {
                if k == s.len() - 1 {
                    assert(s[k].task.title == pooled[m as int].task.title);
                } else {
                    assert(s[k] == prevk[k]);
                }
            }
        }
    } else {
        assert(active + Seq::<ActiveTaskView>::empty() =~= active);
    }
}


/// Each promoted task is the promotion of a pooled task that won its draw.
pub proof fn lemma_promoted_origin(
    active: Seq<ActiveTaskView>,
    pooled: Seq<PooledTaskView>,
    draws: Seq<u32>,
    now: i64,
    n: nat,
    k: int,
)
    requires
        n <= pooled.len(),
        n <= draws.len(),
        0 <= k < promoted_prefix(active, pooled, draws, now, n).len(),
    ensures
        exists|j: int|
            0 <= j < n && promoted_prefix(active, pooled, draws, now, n)[k] == promote(
                #[trigger] pooled[j],
                now,
            ) && wins(pooled[j], draws[j], now, active),
    decreases n,
{
    let m = (n - 1) as nat;
    let prev = promoted_prefix(active, pooled, draws, now, m);
    let s = promoted_prefix(active, pooled, draws, now, n);
    if k < prev.len() {
        lemma_promoted_origin(active, pooled, draws, now, m, k);
        let j = choose|j: int|
            0 <= j < m && prev[k] == promote(#[trigger] pooled[j], now) && wins(
                pooled[j],
                draws[j],
                now,
                active,
            );
        if wins(pooled[m as int], draws[m as int], now, active) {
            assert(s[k] == prev[k]);
        }
        assert(0 <= j < n && s[k] == promote(pooled[j], now));
    } else {
        if !wins(pooled[m as int], draws[m as int], now, active) {
            assert(s == prev);
        }
        assert(s[k] == promote(pooled[m as int], now));
    }
}

/// Among the first `n`, a pooled task that wins its draw is promoted and one
/// that loses it is kept.
pub proof fn lemma_outcome_prefix(
    active: Seq<ActiveTaskView>,
    pooled: Seq<PooledTaskView>,
    draws: Seq<u32>,
    now: i64,
    n: nat,
    i: int,
)
    requires
        n <= pooled.len(),
        n <= draws.len(),
        0 <= i < n,
    ensures
        wins(pooled[i], draws[i], now, active) ==> promoted_prefix(
            active,
            pooled,
            draws,
            now,
            n,
        ).contains(promote(pooled[i], now)),
        !wins(pooled[i], draws[i], now, active) ==> kept_prefix(
            active,
            pooled,
            draws,
            now,
            n,
        ).contains(pooled[i]),
    decreases n,
{
    let m = (n - 1) as nat;
    let prev = promoted_prefix(active, pooled, draws, now, m);
    let prevk = kept_prefix(active, pooled, draws, now, m);
    if i < m {
        lemma_outcome_prefix(active, pooled, draws, now, m, i);
        if wins(pooled[i], draws[i], now, active) {
            let k = choose|k: int| 0 <= k < prev.len() && prev[k] == promote(pooled[i], now);
            assert(promoted_prefix(active, pooled, draws, now, n)[k] == prev[k]);
        } else {
            let k = choose|k: int| 0 <= k < prevk.len() && prevk[k] == pooled[i];
            assert(kept_prefix(active, pooled, draws, now, n)[k] == prevk[k]);
        }
    } else {
        if wins(pooled[i], draws[i], now, active) {
            assert(promoted_prefix(active, pooled, draws, now, n)[prev.len() as int] == promote(
                pooled[i],
                now,
            ));
        } else {
            assert(kept_prefix(active, pooled, draws, now, n)[prevk.len() as int] == pooled[i]);
        }
    }
}

/// What one activation does to the `i`-th pooled task: if it wins its draw it
/// is promoted, otherwise it stays in the pool, unchanged, and no promoted
/// task has its title.
pub proof fn lemma_activation_outcome(
    active: Seq<ActiveTaskView>,
    pooled: Seq<PooledTaskView>,
    draws: Seq<u32>,
    now: i64,
    i: int,
)
    requires
        active_titles_distinct(active),
        pooled_titles_distinct(pooled),
        draws.len() == pooled.len(),
        0 <= i < pooled.len(),
    ensures
        wins(pooled[i], draws[i], now, active) ==> promoted_all(
            active,
            pooled,
            draws,
            now,
        ).contains(promote(pooled[i], now)) && !kept_all(active, pooled, draws, now).contains(
            pooled[i],
        ),
        !wins(pooled[i], draws[i], now, active) ==> kept_all(
            active,
            pooled,
            draws,
            now,
        ).contains(pooled[i]) && forall|k: int|
            0 <= k < promoted_all(active, pooled, draws, now).len() ==> #[trigger] promoted_all(
                active,
                pooled,
                draws,
                now,
            )[k].task.title != pooled[i].task.title,
{
    let n = pooled.len();
    lemma_outcome_prefix(active, pooled, draws, now, n, i);
    lemma_kept_origin(active, pooled, draws, now, n);
    let pr = promoted_all(active, pooled, draws, now);
    let kp = kept_all(active, pooled, draws, now);
    if wins(pooled[i], draws[i], now, active) {
        if kp.contains(pooled[i]) {
            let k = choose|k: int| 0 <= k < kp.len() && kp[k] == pooled[i];
            let j = choose|j: int|
                0 <= j < n && kp[k] == #[trigger] pooled[j] && !wins(pooled[j], draws[j], now, active);
            if j != i {
                assert(pooled[j].task.title != pooled[i].task.title);
            }
        }
    } else {
        assert forall|k: int| 0 <= k < pr.len() implies #[trigger] pr[k].task.title
            != pooled[i].task.title by {
            lemma_promoted_origin(active, pooled, draws, now, n, k);
            let j = choose|j: int|
                0 <= j < n && pr[k] == promote(#[trigger] pooled[j], now) && wins(
                    pooled[j],
                    draws[j],
                    now,
                    active,
                );
            if j != i {
                assert(pooled[j].task.title != pooled[i].task.title);
            }
        }
    }
}

/// Each kept task is a pooled task that lost its draw.
pub proof fn lemma_kept_origin(
    active: Seq<ActiveTaskView>,
    pooled: Seq<PooledTaskView>,
    draws: Seq<u32>,
    now: i64,
    n: nat,
)
    requires
        n <= pooled.len(),
        n <= draws.len(),
    ensures
        forall|k: int|
            #![trigger kept_prefix(active, pooled, draws, now, n)[k]]
            0 <= k < kept_prefix(active, pooled, draws, now, n).len() ==> exists|j: int|
                0 <= j < n && kept_prefix(active, pooled, draws, now, n)[k] == #[trigger] pooled[j]
                    && !wins(pooled[j], draws[j], now, active),
    decreases n,
{
    if n > 0 {
        let m = (n - 1) as nat;
        lemma_kept_origin(active, pooled, draws, now, m);
        let prev = kept_prefix(active, pooled, draws, now, m);
        let s = kept_prefix(active, pooled, draws, now, n);
        assert forall|k: int| #![trigger s[k]] 0 <= k < s.len() implies exists|j: int|
            0 <= j < n && s[k] == #[trigger] pooled[j] && !wins(pooled[j], draws[j], now, active) by {
            if k < prev.len() {
                assert(s[k] == prev[k]);
                let j = choose|j: int|
                    0 <= j < m && prev[k] == #[trigger] pooled[j] && !wins(pooled[j], draws[j], now, active);
                assert(0 <= j < n && s[k] == pooled[j]);
            } else {
                assert(s[k] == pooled[m as int]);
            }
        }
    }
}

/// A pooled task whose probability is zero is not promoted, whatever the
/// draws: it stays in the pool, unchanged, and no promoted task has its title.
pub proof fn lemma_zero_probability_never_promoted(
    active: Seq<ActiveTaskView>,
    pooled: Seq<PooledTaskView>,
    draws: Seq<u32>,
    now: i64,
    i: int,
)
    requires
        active_titles_distinct(active),
        pooled_titles_distinct(pooled),
        draws.len() == pooled.len(),
        0 <= i < pooled.len(),
        pooled[i].probability == 0,
    ensures
        kept_all(active, pooled, draws, now).contains(pooled[i]),
        forall|k: int|
            0 <= k < promoted_all(active, pooled, draws, now).len() ==> #[trigger] promoted_all(
                active,
                pooled,
                draws,
                now,
            )[k].task.title != pooled[i].task.title,
{
    lemma_activation_outcome(active, pooled, draws, now, i);
}

/// A pooled task still cooling down at `now` is not promoted, whatever its
/// probability and the draws.
pub proof fn lemma_cooling_never_promoted(
    active: Seq<ActiveTaskView>,
    pooled: Seq<PooledTaskView>,
    draws: Seq<u32>,
    now: i64,
    i: int,
)
    requires
        active_titles_distinct(active),
        pooled_titles_distinct(pooled),
        draws.len() == pooled.len(),
        0 <= i < pooled.len(),
        pooled[i].cooling_until > now,
    ensures
        kept_all(active, pooled, draws, now).contains(pooled[i]),
        forall|k: int|
            0 <= k < promoted_all(active, pooled, draws, now).len() ==> #[trigger] promoted_all(
                active,
                pooled,
                draws,
                now,
            )[k].task.title != pooled[i].task.title,
{
    lemma_activation_outcome(active, pooled, draws, now, i);
}

/// An eligible pooled task with a positive probability whose draw is zero is
/// promoted, unless an active task already has its title.
pub proof fn lemma_zero_draw_promotes(
    active: Seq<ActiveTaskView>,
    pooled: Seq<PooledTaskView>,
    draws: Seq<u32>,
    now: i64,
    i: int,
)
    requires
        active_titles_distinct(active),
        pooled_titles_distinct(pooled),
        draws.len() == pooled.len(),
        0 <= i < pooled.len(),
        pooled[i].cooling_until <= now,
        pooled[i].probability > 0,
        draws[i] == 0,
        !has_active(active, pooled[i].task.title),
    ensures
        promoted_all(active, pooled, draws, now).contains(promote(pooled[i], now)),
        !kept_all(active, pooled, draws, now).contains(pooled[i]),
{
    lemma_activation_outcome(active, pooled, draws, now, i);
}

pub struct TaskStatView {
    pub active: Seq<ActiveTaskView>,
    pub pooled: Seq<PooledTaskView>,
}

/// The active and the pooled tasks, each in the order they were added.
/// Titles are unique within each collection.
pub struct TaskStat {
    pub active: Vec<ActiveTask>,
    pub pooled: Vec<PooledTask>,
}

impl View for TaskStat {
    type V = TaskStatView;

    open spec fn view(&self) -> TaskStatView {
        TaskStatView { active: actives_view(self.active@), pooled: pooled_view(self.pooled@) }
    }
}

pub open spec fn new_active(title: Seq<char>, description: Seq<char>, factor: i64, due: i64) -> ActiveTaskView {
    ActiveTaskView { task: TaskView { title, description, factor }, due }
}

pub open spec fn new_pooled(
    title: Seq<char>,
    description: Seq<char>,
    factor: i64,
    probability: u32,
    cool_down: i16,
    due_days: i16,
    now: i64,
) -> PooledTaskView {
    PooledTaskView {
        task: TaskView { title, description, factor },
        probability,
        cool_down,
        due_days,
        cooling_until: now,
    }
}

impl TaskStat {
    pub open spec fn wf(&self) -> bool {
        &&& active_titles_distinct(self@.active)
        &&& pooled_titles_distinct(self@.pooled)
    }

    pub fn new() -> (r: TaskStat)
        ensures
            r.wf(),
            r@.active.len() == 0,
            r@.pooled.len() == 0,
    {
        TaskStat { active: Vec::new(), pooled: Vec::new() }
    }

    /// Whether titles are unique within each collection.
    pub fn titles_unique(&self) -> (r: bool)
        ensures
            r == self.wf(),
    {
        let mut i: usize = 0;
        while i < self.active.len()
            invariant
                i <= self.active@.len(),
                forall|x: int, y: int|
                    0 <= x < y < self.active@.len() && x < i ==> #[trigger] self@.active[x].task.title
                        != #[trigger] self@.active[y].task.title,
            decreases self.active@.len() - i,
        {
            let mut j: usize = i + 1;
            while j < self.active.len()
                invariant
                    i < self.active@.len(),
                    i < j <= self.active@.len(),
                    forall|x: int, y: int|
                        0 <= x < y < self.active@.len() && x < i ==> #[trigger] self@.active[x].task.title
                            != #[trigger] self@.active[y].task.title,
                    forall|y: int| i < y < j ==> self@.active[i as int].task.title
                        != #[trigger] self@.active[y].task.title,
                decreases self.active@.len() - j,
            {
                if self.active[i].task.title == self.active[j].task.title {
                    assert(self@.active[i as int].task.title == self@.active[j as int].task.title);
                    return false;
                }
                j += 1;
            }
            i += 1;
        }
        let mut i: usize = 0;
        while i < self.pooled.len()
            invariant
                i <= self.pooled@.len(),
                active_titles_distinct(self@.active),
                forall|x: int, y: int|
                    0 <= x < y < self.pooled@.len() && x < i ==> #[trigger] self@.pooled[x].task.title
                        != #[trigger] self@.pooled[y].task.title,
            decreases self.pooled@.len() - i,
        {
            let mut j: usize = i + 1;
            while j < self.pooled.len()
                invariant
                    i < self.pooled@.len(),
                    i < j <= self.pooled@.len(),
                    forall|x: int, y: int|
                        0 <= x < y < self.pooled@.len() && x < i ==> #[trigger] self@.pooled[x].task.title
                            != #[trigger] self@.pooled[y].task.title,
                    forall|y: int| i < y < j ==> self@.pooled[i as int].task.title
                        != #[trigger] self@.pooled[y].task.title,
                decreases self.pooled@.len() - j,
            {
                if self.pooled[i].task.title == self.pooled[j].task.title {
                    assert(self@.pooled[i as int].task.title == self@.pooled[j as int].task.title);
                    return false;
                }
                j += 1;
            }
            i += 1;
        }
        true
    }

    /// The position of the active task titled `title`.
    pub fn find_active(&self, title: &String) -> (r: Option<usize>)
        requires
            self.wf(),
        ensures
            r is None <==> !has_active(self@.active, title@),
            r matches Some(i) ==> i < self@.active.len() && self@.active[i as int].task.title
                == title@,
    {
        let mut i: usize = 0;
        while i < self.active.len()
            invariant
                i <= self.active@.len(),
                forall|k: int| 0 <= k < i ==> #[trigger] self@.active[k].task.title != title@,
            decreases self.active@.len() - i,
        {
            if self.active[i].task.title == *title {
                assert(self@.active[i as int].task.title == title@);
                return Some(i);
            }
            i += 1;
        }
        None
    }

    /// The position of the pooled task titled `title`.
    pub fn find_pooled(&self, title: &String) -> (r: Option<usize>)
        requires
            self.wf(),
        ensures
            r is None <==> !has_pooled(self@.pooled, title@),
            r matches Some(i) ==> i < self@.pooled.len() && self@.pooled[i as int].task.title
                == title@,
    {
        let mut i: usize = 0;
        while i < self.pooled.len()
            invariant
                i <= self.pooled@.len(),
                forall|k: int| 0 <= k < i ==> #[trigger] self@.pooled[k].task.title != title@,
            decreases self.pooled@.len() - i,
        {
            if self.pooled[i].task.title == *title {
                assert(self@.pooled[i as int].task.title == title@);
                return Some(i);
            }
            i += 1;
        }
        None
    }

    /// Adds an active task due `due_in` days after `now`; refused when an
    /// active task already has the title.
    pub fn add_active_task_at(
        &mut self,
        now: i64,
        title: String,
        description: String,
        factor: i64,
        due_in: i16,
    ) -> (r: Result<ActiveTask, TaskError>)
        requires
            old(self).wf(),
            valid_time(now),
        ensures
            final(self).wf(),
            has_active(old(self)@.active, title@) ==> r == Err::<ActiveTask, TaskError>(
                TaskError::DuplicateTitle,
            ) && final(self)@ == old(self)@,
            !has_active(old(self)@.active, title@) ==> r is Ok && r->Ok_0@ == new_active(
                title@,
                description@,
                factor,
                add_days(now, due_in) as i64,
            ) && final(self)@.active == old(self)@.active.push(r->Ok_0@) && final(self)@.pooled
                == old(self)@.pooled,
    {
        if self.find_active(&title).is_some() {
            return Err(TaskError::DuplicateTitle);
        }
        let task = ActiveTask {
            task: Task { title, description, factor },
            due: plus_days(now, due_in),
        };
        self.active.push(task.copy());
        assert(self@.active =~= old(self)@.active.push(task@));
        Ok(task)
    }

    /// Adds a pooled task that may be promoted from `now` on; refused when a
    /// pooled task already has the title.
    pub fn add_pooled_task_at(
        &mut self,
        now: i64,
        title: String,
        description: String,
        factor: i64,
        probability: u32,
        cool_down: i16,
        due_days: i16,
    ) -> (r: Result<PooledTask, TaskError>)
        requires
            old(self).wf(),
        ensures
            final(self).wf(),
            has_pooled(old(self)@.pooled, title@) ==> r == Err::<PooledTask, TaskError>(
                TaskError::DuplicateTitle,
            ) && final(self)@ == old(self)@,
            !has_pooled(old(self)@.pooled, title@) ==> r is Ok && r->Ok_0@ == new_pooled(
                title@,
                description@,
                factor,
                probability,
                cool_down,
                due_days,
                now,
            ) && final(self)@.pooled == old(self)@.pooled.push(r->Ok_0@) && final(self)@.active
                == old(self)@.active,
    {
        if self.find_pooled(&title).is_some() {
            return Err(TaskError::DuplicateTitle);
        }
        let task = PooledTask {
            task: Task { title, description, factor },
            probability,
            cool_down,
            due_days,
            cooling_until: now,
        };
        self.pooled.push(task.copy());
        assert(self@.pooled =~= old(self)@.pooled.push(task@));
        Ok(task)
    }

    /// Takes the active task titled `title` out of the store.
    pub fn remove_active(&mut self, title: &String) -> (r: Option<ActiveTask>)
        requires
            old(self).wf(),
        ensures
            final(self).wf(),
            final(self)@.pooled == old(self)@.pooled,
            !has_active(old(self)@.active, title@) <==> r is None,
            r is None ==> *final(self) == *old(self),
            r is Some ==> exists|i: int|
                0 <= i < old(self)@.active.len() && old(self)@.active[i].task.title == title@
                    && r->Some_0@ == old(self)@.active[i] && final(self)@.active == old(
                    self,
                )@.active.remove(i),
            !has_active(final(self)@.active, title@),
    {
        match self.find_active(title) {
            None => None,
            Some(i) => {
                let ghost before = self@.active;
                let t = self.active.remove(i);
                assert(self@.active =~= before.remove(i as int));
                assert(!has_active(self@.active, title@)) by {
                    assert forall|k: int| 0 <= k < self@.active.len() implies #[trigger] self@.active[k].task.title != title@ by {
                        if k < i {
                            assert(self@.active[k] == before[k]);
                        } else {
                            assert(self@.active[k] == before[k + 1]);
                        }
                    }
                }
                Some(t)
            },
        }
    }

    /// Promotes the pooled tasks that win their draw at `now`. `draws[i]` is
    /// the random draw, in `[0, PROBABILITY_SCALE)`, of the `i`-th pooled task;
    /// the draw of a task still cooling down is not looked at. Promoted tasks
    /// are appended to the active tasks in pool order and returned; the others
    /// stay in the pool unchanged.
    pub fn activate_at(&mut self, now: i64, draws: &Vec<u32>) -> (r: Vec<ActiveTask>)
        requires
            old(self).wf(),
            valid_time(now),
            draws@.len() == old(self)@.pooled.len(),
        ensures
            final(self).wf(),
            actives_view(r@) == promoted_all(old(self)@.active, old(self)@.pooled, draws@, now),
            final(self)@.active == old(self)@.active + actives_view(r@),
            final(self)@.pooled == kept_all(old(self)@.active, old(self)@.pooled, draws@, now),
    {
        let ghost a0 = self@.active;
        let ghost p0 = self@.pooled;
        let mut promoted: Vec<ActiveTask> = Vec::new();
        let mut kept: Vec<PooledTask> = Vec::new();
        let mut i: usize = 0;
        while i < self.pooled.len()
            invariant
                self@ == old(self)@,
                self.wf(),
                a0 == self@.active,
                p0 == self@.pooled,
                valid_time(now),
                draws@.len() == p0.len(),
                i <= p0.len(),
                actives_view(promoted@) == promoted_prefix(a0, p0, draws@, now, i as nat),
                pooled_view(kept@) == kept_prefix(a0, p0, draws@, now, i as nat),
            decreases p0.len() - i,
        {
            let p = &self.pooled[i];
            assert(p@ == p0[i as int]);
            if p.cooling_until <= now && draws[i] < p.probability && self.find_active(
                &p.task.title,
            ).is_none() {
                let a = ActiveTask { task: p.task.copy(), due: plus_days(now, p.due_days) };
                let ghost before = promoted@;
                promoted.push(a);
                assert(actives_view(promoted@) =~= actives_view(before).push(a@));
            } else {
                let ghost before = kept@;
                kept.push(p.copy());
                assert(pooled_view(kept@) =~= pooled_view(before).push(p0[i as int]));
            }
            i += 1;
        }
        proof {
            lemma_activation_titles(a0, p0, draws@, now, p0.len());
        }
        let mut j: usize = 0;
        while j < promoted.len()
            invariant
                j <= promoted@.len(),
                self@.active == a0 + actives_view(promoted@).take(j as int),
                self@.pooled == p0,
            decreases promoted@.len() - j,
        {
            let ghost before = self@.active;
            self.active.push(promoted[j].copy());
            j += 1;
            assert(self@.active =~= a0 + actives_view(promoted@).take(j as int)) by {
                assert(self@.active =~= before.push(promoted@[j - 1]@));
            }
        }
        assert(actives_view(promoted@).take(j as int) =~= actives_view(promoted@));
        self.pooled = kept;
        promoted
    }
}

} // verus!
