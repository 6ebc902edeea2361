//! What holds of the records, the reports and the texts of the `run` command.

use crate::commands::run;
use crate::task::{MetaRecord, ReportRecord, TaskDef, TaskMeta, TaskRunReport, TaskStatus};
use crate::text;
use vstd::prelude::*;

verus! {

/// What counts of a report is what its fields say.
pub proof fn law_a_report_counts_as_it_says(report: TaskRunReport)
    ensures
        report@.name == report.name@,
        report@.status == report.status,
        match report.error {
            Some(error) => report@.error == Some(error@),
            None => report@.error is None,
        },
{
}

/// What counts of a record is what its fields say.
pub proof fn law_a_record_counts_as_it_says(meta: TaskMeta)
    ensures
        meta@.name == meta.name@,
        meta@.cwd == meta.cwd@,
        meta@.prompt == meta.prompt@,
        meta@.agent_id == meta.agent_id@,
        meta@.thread_id == meta.thread_id@,
        meta@.wave == meta.wave,
        meta@.status == meta.status,
        match meta.error {
            Some(error) => meta@.error == Some(error@),
            None => meta@.error is None,
        },
        match meta.end_time {
            Some(time) => meta@.end_time == Some(time@),
            None => meta@.end_time is None,
        },
        meta@.other == meta.other@,
{
}

/// The tasks of waves are those of the first ones, followed by those of the others; one wave
/// gives its tasks, and no waves give none.
pub proof fn law_tasks_are_listed_wave_after_wave(
    first: Seq<Vec<TaskDef>>,
    second: Seq<Vec<TaskDef>>,
)
    ensures
        first.len() == 0 ==> run::all_tasks(first).len() == 0,
        first.len() == 1 ==> run::all_tasks(first) == first[0]@,
        run::all_tasks(first + second) == run::all_tasks(first) + run::all_tasks(second),
    decreases second.len(),
{
    reveal_with_fuel(run::all_tasks, 3);
    if first.len() == 1 {
        assert(first.drop_last() =~= Seq::empty());
        assert(run::all_tasks(first) =~= first[0]@);
    }
    if second.len() == 0 {
        assert(first + second =~= first);
        assert(run::all_tasks(first) + run::all_tasks(second) =~= run::all_tasks(first));
    } else {
        let whole = first + second;
        let front = second.drop_last();
        assert(whole.drop_last() =~= first + front);
        assert(whole.last() == second.last());
        law_tasks_are_listed_wave_after_wave(first, front);
        assert(run::all_tasks(whole) =~= run::all_tasks(first) + run::all_tasks(second));
    }
}

/// A task whose record was read is reported with the name, the status and the error recorded; a
/// task whose record could not be read is reported as failed, under its own name and with the
/// reason.
pub proof fn law_reports_say_what_was_recorded(
    tasks: Seq<TaskDef>,
    loaded: Seq<Result<TaskMeta, String>>,
    i: int,
)
    requires
        tasks.len() == loaded.len(),
        0 <= i < tasks.len(),
    ensures
        run::reports_of(tasks, loaded).len() == tasks.len(),
        match loaded[i] {
            Ok(meta) => {
                &&& run::reports_of(tasks, loaded)[i].name == meta.name@
                &&& run::reports_of(tasks, loaded)[i].status == meta.status
                &&& match meta.error {
                    Some(error) => run::reports_of(tasks, loaded)[i].error == Some(error@),
                    None => run::reports_of(tasks, loaded)[i].error is None,
                }
            },
            Err(why) => {
                &&& run::reports_of(tasks, loaded)[i].name == tasks[i].name@
                &&& run::reports_of(tasks, loaded)[i].status == TaskStatus::Failed
                &&& run::reports_of(tasks, loaded)[i].error == Some(
                    "failed to read task meta: "@ + why@,
                )
            },
        },
{
}

/// Reports count one by one.
pub proof fn law_reports_count_one_by_one(reports: Seq<TaskRunReport>)
    ensures
        run::report_records(reports).len() == reports.len(),
        forall|i: int|
            0 <= i < reports.len() ==> {
                &&& (#[trigger] run::report_records(reports)[i]).name == reports[i].name@
                &&& run::report_records(reports)[i].status == reports[i].status
                &&& match reports[i].error {
                    Some(error) => run::report_records(reports)[i].error == Some(error@),
                    None => run::report_records(reports)[i].error is None,
                }
            },
{
}

/// Records count one by one.
pub proof fn law_records_count_one_by_one(metas: Seq<TaskMeta>)
    ensures
        run::records(metas).len() == metas.len(),
        forall|i: int| 0 <= i < metas.len() ==> #[trigger] run::records(metas)[i] == metas[i]@,
{
}

/// Each task is recorded once before anything runs, at its place among all tasks: as waiting,
/// with its own name, directory and prompt and the number of its wave, and with nothing else.
pub proof fn law_every_task_is_recorded_as_waiting(waves: Seq<Vec<TaskDef>>, k: int, j: int)
    requires
        0 <= k < waves.len(),
        0 <= j < waves[k]@.len(),
    ensures
        run::waiting_records(waves).len() == run::all_tasks(waves).len(),
        run::all_tasks(waves.take(k)).len() + j < run::waiting_records(waves).len(),
        ({
            let record = run::waiting_records(waves)[run::all_tasks(waves.take(k)).len() + j];
            &&& record.name == waves[k]@[j].name@
            &&& record.cwd == waves[k]@[j].cwd@
            &&& record.prompt == waves[k]@[j].prompt@
            &&& record.wave == Some(k as u32)
            &&& record.status == TaskStatus::Pending
            &&& record.agent_id.len() == 0
            &&& record.thread_id.len() == 0
            &&& record.error is None
            &&& record.end_time is None
            &&& record.other.len() == 0
        }),
    decreases waves.len(),
{
    let front = waves.drop_last();
    lemma_as_many_records(waves);
    lemma_as_many_records(front);
    if k == waves.len() - 1 {
        assert(waves.take(k) =~= front);
        let at = run::all_tasks(front).len() + j;
        assert(run::waiting_records(waves)[at] == run::wave_records(waves[k]@, k)[j]);
    } else {
        law_every_task_is_recorded_as_waiting(front, k, j);
        assert(front.take(k) =~= waves.take(k));
    }
}

/// There are as many records as tasks.
pub proof fn lemma_as_many_records(waves: Seq<Vec<TaskDef>>)
    ensures
        run::waiting_records(waves).len() == run::all_tasks(waves).len(),
    decreases waves.len(),
{
    if waves.len() > 0 {
        lemma_as_many_records(waves.drop_last());
    }
}

/// The record of a task is a file in the log directory, named after the task.
pub proof fn law_a_record_is_named_after_its_task(log_dir: Seq<char>, name: Seq<char>)
    ensures
        run::meta_file(log_dir, name) == text::joined_path(log_dir, name + ".meta.json"@),
        name.len() > 0 && name[0] != '/' && log_dir.len() > 0 && log_dir[log_dir.len() - 1] != '/'
            ==> run::meta_file(log_dir, name) == log_dir.push('/') + name + ".meta.json"@,
        name.len() > 0 && name[0] != '/' && log_dir.len() == 0 ==> run::meta_file(log_dir, name)
            == name + ".meta.json"@,
{
    let file = name + ".meta.json"@;
    if name.len() > 0 && name[0] != '/' {
        assert(file[0] == name[0]);
        if log_dir.len() == 0 {
            assert(run::meta_file(log_dir, name) =~= file);
        } else if log_dir[log_dir.len() - 1] != '/' {
            assert(run::meta_file(log_dir, name) =~= log_dir.push('/') + name + ".meta.json"@);
        }
    }
}

/// One more wave adds one line to the announcement: the number of the wave, counted from zero,
/// and how many tasks it has.
pub proof fn law_one_more_wave_is_one_more_line(waves: Seq<Vec<TaskDef>>, next: Vec<TaskDef>)
    ensures
        run::wave_lines(waves.push(next)) == run::wave_lines(waves) + "-- Wave "@ + text::decimal(
            waves.len(),
        ) + " ("@ + text::decimal(next@.len()) + (if next@.len() == 1 {
            " task, parallel) --\n"@
        } else {
            " tasks, parallel) --\n"@
        }),
        run::wave_lines(Seq::empty()).len() == 0,
{
    reveal_strlit("");
    reveal_strlit("s");
    reveal_strlit(" task");
    reveal_strlit(", parallel) --\n");
    reveal_strlit(" task, parallel) --\n");
    reveal_strlit(" tasks, parallel) --\n");
    let more = waves.push(next);
    assert(more.drop_last() =~= waves);
    assert(more.last() == next);
    assert(" task"@ + ""@ + ", parallel) --\n"@ =~= " task, parallel) --\n"@);
    assert(" task"@ + "s"@ + ", parallel) --\n"@ =~= " tasks, parallel) --\n"@);
    assert(run::wave_lines(more) =~= run::wave_lines(waves) + "-- Wave "@ + text::decimal(
        waves.len(),
    ) + " ("@ + text::decimal(next@.len()) + (if next@.len() == 1 {
        " task, parallel) --\n"@
    } else {
        " tasks, parallel) --\n"@
    }));
}

/// The announcement tells how many tasks and waves there are, shows a line for each wave, and
/// ends with an empty line where there are waves.
pub proof fn law_the_announcement_counts_tasks_and_waves(waves: Seq<Vec<TaskDef>>)
    ensures
        waves.len() > 0 ==> run::announcement(waves) == "Launching "@ + text::decimal(
            run::all_tasks(waves).len(),
        ) + " tasks in "@ + text::decimal(waves.len()) + " wave(s)...\n\n"@ + run::wave_lines(
            waves,
        ) + "\n"@,
        waves.len() == 0 ==> run::announcement(waves) == "Launching "@ + text::decimal(0)
            + " tasks in "@ + text::decimal(0) + " wave(s)...\n\n"@,
{
    reveal_strlit("");
    if waves.len() == 0 {
        assert(run::announcement(waves) =~= "Launching "@ + text::decimal(0) + " tasks in "@
            + text::decimal(0) + " wave(s)...\n\n"@);
    }
}

/// One more report adds one line to the summary: the mark of its status, its name and, where
/// there is one, its error.
pub proof fn law_one_more_report_is_one_more_line(
    reports: Seq<ReportRecord>,
    next: ReportRecord,
)
    ensures
        run::report_lines(Seq::empty()).len() == 0,
        run::report_lines(reports.push(next)) == run::report_lines(reports) + "  "@ + (
        match next.status {
            TaskStatus::Done => "\x1b[32m✓\x1b[0m"@,
            TaskStatus::Failed => "\x1b[31m✗\x1b[0m"@,
            TaskStatus::Cancelled => "\x1b[35m⊘\x1b[0m"@,
            TaskStatus::Pending => "?"@,
            TaskStatus::Running => "?"@,
        }) + " "@ + next.name + (match next.error {
            Some(error) => "  -- "@ + error + "\n"@,
            None => "\n"@,
        }),
{
    let more = reports.push(next);
    assert(more.drop_last() =~= reports);
    assert(more.last() == next);
    let mark = match next.status {
        TaskStatus::Done => "\x1b[32m✓\x1b[0m"@,
        TaskStatus::Failed => "\x1b[31m✗\x1b[0m"@,
        TaskStatus::Cancelled => "\x1b[35m⊘\x1b[0m"@,
        TaskStatus::Pending => "?"@,
        TaskStatus::Running => "?"@,
    };
    let end = match next.error {
        Some(error) => "  -- "@ + error + "\n"@,
        None => "\n"@,
    };
    assert(run::report_lines(more) =~= run::report_lines(reports) + "  "@ + mark + " "@ + next.name
        + end);
}

/// The summary shows its title between two rules, then the reports, then where the results are.
pub proof fn law_the_summary_shows_all_reports(
    reports: Seq<ReportRecord>,
    total: nat,
    base: Seq<char>,
)
    ensures
        run::summary(reports, total, base) == "\n"@ + run::rule_line() + "  SUMMARY ("@
            + text::decimal(total) + " tasks)\n"@ + run::rule_line() + run::report_lines(reports)
            + "\n  Results: "@ + base + "/outputs/*.md\n"@,
        run::rule_line().len() == 51,
        run::rule_line()[50] == '\n',
        forall|i: int| 0 <= i < 50 ==> #[trigger] run::rule_line()[i] == '=',
{
    reveal_strlit("==================================================\n");
}

/// A record of a task that will never start says so, with the reason and the time, keeps the
/// labels that it had, and has the labels of the task, or else its name, where it had none.
pub proof fn law_a_cancelled_record_is_labelled(
    recorded: Option<MetaRecord>,
    def: TaskDef,
    reason: Seq<char>,
    now: Seq<char>,
)
    ensures
        ({
            let after = MetaRecord::cancelled(recorded, def, reason, now);
            &&& after.status == TaskStatus::Cancelled
            &&& after.error == Some(reason)
            &&& after.end_time == Some(now)
            &&& match recorded {
                Some(record) => {
                    &&& after.name == record.name
                    &&& after.cwd == record.cwd
                    &&& after.prompt == record.prompt
                    &&& after.wave == record.wave
                    &&& after.other == record.other
                    &&& record.agent_id.len() > 0 ==> after.agent_id == record.agent_id
                    &&& record.thread_id.len() > 0 ==> after.thread_id == record.thread_id
                },
                None => {
                    &&& after.name == def.name@
                    &&& after.cwd == def.cwd@
                    &&& after.prompt == def.prompt@
                    &&& after.wave is None
                    &&& after.other.len() == 0
                },
            }
            &&& recorded is None || recorded->0.agent_id.len() == 0 ==> after.agent_id
                == match def.agent_id {
                Some(label) => label@,
                None => def.name@,
            }
            &&& recorded is None || recorded->0.thread_id.len() == 0 ==> after.thread_id
                == match def.thread_id {
                Some(label) => label@,
                None => def.name@,
            }
        }),
{
}

/// Recording a second time that a task will never start changes the reason and the time alone.
pub proof fn law_cancelling_a_record_again_keeps_its_labels(
    recorded: Option<MetaRecord>,
    def: TaskDef,
    reason: Seq<char>,
    now: Seq<char>,
    later_reason: Seq<char>,
    later: Seq<char>,
)
    requires
        def.name@.len() > 0,
        def.agent_id matches Some(label) ==> label@.len() > 0,
        def.thread_id matches Some(label) ==> label@.len() > 0,
    ensures
        MetaRecord::cancelled(
            Some(MetaRecord::cancelled(recorded, def, reason, now)),
            def,
            later_reason,
            later,
        ) == MetaRecord::cancelled(recorded, def, later_reason, later),
{
}

} // verus!
