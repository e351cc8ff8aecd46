use tbd::codec::{load, save, LoadError};
use tbd::store::TaskError;
use tbd::task::{ActiveTask, TaskAction, PROBABILITY_SCALE, SECONDS_PER_DAY};
use tbd::tasklog::TaskLog;

const NOW: i64 = 1_700_000_000;

fn s(x: &str) -> String {
    x.to_string()
}

fn titles(v: &[ActiveTask]) -> Vec<String> {
    v.iter().map(|a| a.task.title.clone()).collect()
}

#[test]
fn scenario_clean_desk_promoted() {
    let mut l = TaskLog::new();
    assert_eq!(l.add_active_task_at(NOW, s("Write report"), s("-"), 1000, 3), Ok(()));
    assert_eq!(
        l.add_pooled_task_at(NOW, s("Clean desk"), s("-"), 1000, PROBABILITY_SCALE, 0, 2),
        Ok(())
    );
    let promoted = l.activate_at(NOW, &vec![0]);
    assert_eq!(titles(&promoted), vec![s("Clean desk")]);
    assert_eq!(promoted[0].due, NOW + 2 * SECONDS_PER_DAY);
    let actives = l.all_actives();
    assert_eq!(titles(&actives), vec![s("Write report"), s("Clean desk")]);
    assert_eq!(actives[0].due, NOW + 3 * SECONDS_PER_DAY);
    assert!(l.all_pooled().is_empty());
    let log = l.log_entries();
    assert_eq!(log.len(), 3);
    let batches: Vec<&Vec<ActiveTask>> = log
        .iter()
        .filter_map(|e| match &e.entry {
            TaskAction::ActivateTask(v) => Some(v),
            _ => None,
        })
        .collect();
    assert_eq!(batches.len(), 1);
    assert_eq!(titles(batches[0]), vec![s("Clean desk")]);
}

#[test]
fn schedule_then_mark_done() {
    let mut l = TaskLog::new();
    l.add_active_task_at(NOW, s("Pay rent"), s("monthly"), 1500, 1).unwrap();
    let before = l.log_entries().len();
    assert!(l.mark_done_at(NOW + 10, s("Pay rent")));
    assert!(l.all_actives().is_empty());
    let log = l.log_entries();
    assert_eq!(log.len(), before + 1);
    assert_eq!(log[before].dttm, NOW + 10);
    match &log[before].entry {
        TaskAction::CompleteTask(a) => {
            assert_eq!(a.task.title, "Pay rent");
            assert_eq!(a.task.description, "monthly");
            assert_eq!(a.due, NOW + SECONDS_PER_DAY);
        }
        _ => panic!("expected a completion"),
    }
}

#[test]
fn mark_done_unknown_title_changes_nothing() {
    let mut l = TaskLog::new();
    l.add_active_task_at(NOW, s("A"), s("-"), 1000, 1).unwrap();
    l.add_pooled_task_at(NOW, s("B"), s("-"), 1000, 10, 1, 1).unwrap();
    let bytes = save(&l);
    assert!(!l.mark_done_at(NOW, s("C")));
    assert_eq!(save(&l), bytes);
    assert!(!l.mark_done(s("B")));
    assert_eq!(save(&l), bytes);
}

#[test]
fn zero_probability_never_promoted() {
    let mut l = TaskLog::new();
    l.add_pooled_task_at(NOW, s("Never"), s("-"), 1000, 0, 0, 1).unwrap();
    for draw in [0u32, 1, 500_000, PROBABILITY_SCALE - 1] {
        let promoted = l.activate_at(NOW + 100, &vec![draw]);
        assert!(promoted.is_empty());
        assert_eq!(l.all_pooled().len(), 1);
    }
    for _ in 0..20 {
        assert!(l.activate().unwrap().is_empty());
    }
    assert!(l.all_actives().is_empty());
    assert_eq!(l.all_pooled()[0].task.title, "Never");
}

#[test]
fn zero_draw_promotes_eligible_task() {
    let mut l = TaskLog::new();
    l.add_pooled_task_at(NOW, s("Almost sure"), s("-"), 1000, PROBABILITY_SCALE - 1, 2, 5)
        .unwrap();
    let promoted = l.activate_at(NOW, &vec![0]);
    assert_eq!(titles(&promoted), vec![s("Almost sure")]);
    assert_eq!(promoted[0].due, NOW + 5 * SECONDS_PER_DAY);
    assert!(l.all_pooled().is_empty());
}

#[test]
fn certain_task_promoted_by_random_activation() {
    let mut l = TaskLog::new();
    l.add_pooled_task(s("Sure"), s("-"), 1000, PROBABILITY_SCALE, 0, 1).unwrap();
    let cooling = l.all_pooled()[0].cooling_until;
    assert!(cooling > 1_600_000_000);
    let promoted = l.activate().unwrap();
    assert_eq!(titles(&promoted), vec![s("Sure")]);
    assert!(promoted[0].due >= cooling + SECONDS_PER_DAY);
}

#[test]
fn cooling_task_never_promoted() {
    let mut l = TaskLog::new();
    l.add_pooled_task_at(NOW, s("Later"), s("-"), 1000, PROBABILITY_SCALE, 3, 1).unwrap();
    for draw in [0u32, 7, PROBABILITY_SCALE - 1] {
        assert!(l.activate_at(NOW - 1, &vec![draw]).is_empty());
    }
    assert_eq!(l.all_pooled().len(), 1);
    assert_eq!(l.all_pooled()[0].cooling_until, NOW);
}

#[test]
fn draw_at_or_above_probability_keeps_task() {
    let mut l = TaskLog::new();
    l.add_pooled_task_at(NOW, s("Half"), s("-"), 1000, 500_000, 0, 1).unwrap();
    assert!(l.activate_at(NOW, &vec![500_000]).is_empty());
    assert_eq!(titles(&l.activate_at(NOW, &vec![499_999])), vec![s("Half")]);
}

#[test]
fn promotion_skipped_while_title_is_active() {
    let mut l = TaskLog::new();
    l.add_active_task_at(NOW, s("Same"), s("-"), 1000, 1).unwrap();
    l.add_pooled_task_at(NOW, s("Same"), s("-"), 1000, PROBABILITY_SCALE, 0, 1).unwrap();
    assert!(l.activate_at(NOW, &vec![0]).is_empty());
    assert_eq!(l.all_actives().len(), 1);
    assert_eq!(l.all_pooled().len(), 1);
}

#[test]
fn log_order_follows_calls() {
    let mut l = TaskLog::new();
    l.add_active_task_at(NOW, s("One"), s("-"), 1000, 1).unwrap();
    l.add_pooled_task_at(NOW + 1, s("Two"), s("-"), 1000, 0, 0, 1).unwrap();
    l.activate_at(NOW + 2, &vec![0]);
    let log = l.log_entries();
    assert_eq!(log.len(), 3);
    assert!(matches!(log[0].entry, TaskAction::ScheduleTask(_)));
    assert!(matches!(log[1].entry, TaskAction::PoolTask(_)));
    assert!(matches!(&log[2].entry, TaskAction::ActivateTask(v) if v.is_empty()));
    assert_eq!(
        log.iter().map(|e| e.dttm).collect::<Vec<_>>(),
        vec![NOW, NOW + 1, NOW + 2]
    );
}

#[test]
fn duplicate_titles_rejected() {
    let mut l = TaskLog::new();
    l.add_active_task_at(NOW, s("X"), s("first"), 1000, 1).unwrap();
    assert_eq!(
        l.add_active_task_at(NOW, s("X"), s("second"), 1000, 2),
        Err(TaskError::DuplicateTitle)
    );
    l.add_pooled_task_at(NOW, s("X"), s("pooled"), 1000, 1, 1, 1).unwrap();
    assert_eq!(
        l.add_pooled_task_at(NOW, s("X"), s("again"), 1000, 1, 1, 1),
        Err(TaskError::DuplicateTitle)
    );
    assert_eq!(l.all_actives()[0].task.description, "first");
    assert_eq!(l.log_entries().len(), 2);
}

#[test]
fn clock_stamps_changes() {
    let mut l = TaskLog::new();
    l.add_active_task(s("Now"), s("-"), 1000, 0).unwrap();
    let due = l.all_actives()[0].due;
    assert!(due > 1_600_000_000);
    assert!(l.mark_done(s("Now")));
    assert!(l.log_entries()[1].dttm >= due);
}

fn sample_log() -> TaskLog {
    let mut l = TaskLog::new();
    l.add_active_task_at(NOW, s("Write report"), s("quarterly"), 1000, 3).unwrap();
    l.add_active_task_at(NOW, s("Grüße schreiben ✉"), s("ünïcödé"), -2500, -4).unwrap();
    l.add_pooled_task_at(NOW, s("Clean desk"), s(""), 1000, PROBABILITY_SCALE, 0, 2).unwrap();
    l.add_pooled_task_at(NOW, s("Read"), s("-"), 750, 12, -3, i16::MAX).unwrap();
    l.activate_at(NOW + 5, &vec![0, PROBABILITY_SCALE - 1]);
    assert!(l.mark_done_at(NOW + 9, s("Write report")));
    l.activate_at(NOW + 11, &vec![13]);
    l
}

#[test]
fn save_load_round_trip() {
    let l = sample_log();
    let bytes = save(&l);
    assert_eq!(&bytes[..4], &[84, 66, 68, 1]);
    let back = load(&bytes).unwrap();
    assert_eq!(save(&back), bytes);
    assert_eq!(titles(&back.all_actives()), titles(&l.all_actives()));
    assert_eq!(back.all_actives()[0].task.title, "Grüße schreiben ✉");
    assert_eq!(back.all_actives()[0].task.factor, -2500);
    assert_eq!(back.all_pooled()[0].due_days, i16::MAX);
    assert_eq!(back.all_pooled()[0].cool_down, -3);
    assert_eq!(back.log_entries().len(), l.log_entries().len());
    let stamps = |t: &TaskLog| t.log_entries().iter().map(|e| e.dttm).collect::<Vec<_>>();
    assert_eq!(stamps(&back), stamps(&l));
}

#[test]
fn empty_log_round_trip() {
    let l = TaskLog::new();
    let bytes = save(&l);
    assert_eq!(bytes.len(), 4 + 3 * 8);
    let back = load(&bytes).unwrap();
    assert!(back.all_actives().is_empty());
    assert!(back.log_entries().is_empty());
}

#[test]
fn load_rejects_corrupt_bytes() {
    let bytes = save(&sample_log());
    assert!(matches!(load(&Vec::new()), Err(LoadError::Format)));
    let mut bad_magic = bytes.clone();
    bad_magic[0] = b'X';
    assert!(matches!(load(&bad_magic), Err(LoadError::Format)));
    let truncated = bytes[..bytes.len() - 1].to_vec();
    assert!(matches!(load(&truncated), Err(LoadError::Format)));
    let mut trailing = bytes.clone();
    trailing.push(0);
    assert!(matches!(load(&trailing), Err(LoadError::Format)));
}

#[test]
fn load_rejects_invalid_utf8_and_repeated_titles() {
    let mut l = TaskLog::new();
    l.add_active_task_at(NOW, s("ab"), s("-"), 1, 1).unwrap();
    l.add_active_task_at(NOW, s("ac"), s("-"), 1, 1).unwrap();
    let bytes = save(&l);
    // Title bytes of the first task start after the header, the count and the length.
    let first = 4 + 8 + 8;
    let mut bad_utf8 = bytes.clone();
    bad_utf8[first] = 0xff;
    assert!(matches!(load(&bad_utf8), Err(LoadError::Format)));
    let mut repeated = bytes.clone();
    let second = (first + 2..bytes.len() - 1)
        .find(|&i| bytes[i] == b'a' && bytes[i + 1] == b'c')
        .unwrap();
    repeated[second + 1] = b'b';
    assert!(matches!(load(&repeated), Err(LoadError::Format)));
}

#[test]
fn out_of_range_clock_refused() {
    let mut l = TaskLog::new();
    l.add_pooled_task_at(NOW, s("P"), s("-"), 1000, PROBABILITY_SCALE, 0, 1).unwrap();
    let bytes = save(&l);
    assert_eq!(
        l.add_active_task_checked(i64::MAX, s("A"), s("-"), 1000, 1),
        Err(TaskError::ClockOutOfRange)
    );
    assert!(matches!(
        l.activate_checked(i64::MIN, &vec![0]),
        Err(TaskError::ClockOutOfRange)
    ));
    assert_eq!(save(&l), bytes);
    assert_eq!(l.add_active_task_checked(NOW, s("A"), s("-"), 1000, 1), Ok(()));
    assert_eq!(
        l.add_active_task_checked(NOW, s("A"), s("-"), 1000, 1),
        Err(TaskError::DuplicateTitle)
    );
    let promoted = l.activate_checked(NOW, &vec![0]).unwrap();
    assert_eq!(titles(&promoted), vec![s("P")]);
}

#[test]
fn clock_activation_skips_cooling_tasks() {
    let mut l = TaskLog::new();
    l.add_pooled_task_at(i64::MAX / 4, s("Future"), s("-"), 1000, PROBABILITY_SCALE, 0, 1)
        .unwrap();
    l.add_pooled_task(s("Ready"), s("-"), 1000, PROBABILITY_SCALE, 0, 1).unwrap();
    let promoted = l.activate().unwrap();
    assert_eq!(titles(&promoted), vec![s("Ready")]);
    assert_eq!(l.all_pooled().len(), 1);
    assert_eq!(l.all_pooled()[0].task.title, "Future");
}
