//! The `run` command: what it announces, what it records in advance, and its summary.

use crate::command_laws;
use crate::task;
use crate::task::{
    clone_text, MetaRecord, ReportRecord, TaskDef, TaskMeta, TaskRunReport, TaskStatus,
};
use crate::text;
use crate::text::{decimal_text, join_path};
use vstd::prelude::*;
use vstd::string::*;

verus! {

/// All tasks, wave after wave.
pub open spec fn all_tasks(waves: Seq<Vec<TaskDef>>) -> Seq<TaskDef>
    decreases waves.len(),
{
    if waves.len() == 0 {
        Seq::empty()
    } else {
        all_tasks(waves.drop_last()) + waves.last()@
    }
}

/// The first waves have no more tasks than all.
proof fn lemma_fewer_waves(waves: Seq<Vec<TaskDef>>, n: int)
    requires
        0 <= n <= waves.len(),
    ensures
        all_tasks(waves.take(n)).len() <= all_tasks(waves).len(),
        n < waves.len() ==> all_tasks(waves.take(n)) + waves[n]@ == all_tasks(waves.take(n + 1)),
        n < waves.len() ==> all_tasks(waves.take(n)).len() + waves[n]@.len() <= all_tasks(
            waves,
        ).len(),
    decreases waves.len() - n,
{
    if n < waves.len() {
        assert(waves.take(n + 1).drop_last() =~= waves.take(n));
        lemma_fewer_waves(waves, n + 1);
    } else {
        assert(waves.take(n) =~= waves);
    }
}

/// Number of tasks in all waves, if it can be counted.
pub fn total_tasks(waves: &Vec<Vec<TaskDef>>) -> (total: Option<usize>)
    ensures
        match total {
            Some(n) => n == all_tasks(waves@).len(),
            None => all_tasks(waves@).len() > usize::MAX,
        },
{
    let mut total: usize = 0;
    let mut i: usize = 0;
    while i < waves.len()
        invariant
            i <= waves@.len(),
            total == all_tasks(waves@.take(i as int)).len(),
        decreases waves@.len() - i,
    {
        proof {
            lemma_fewer_waves(waves@, i as int);
        }
        total = match total.checked_add(waves[i].len()) {
            Some(sum) => sum,
            None => return None,
        };
        i += 1;
    }
    proof {
        assert(waves@.take(waves@.len() as int) =~= waves@);
    }
    Some(total)
}

/// The file that records a task.
pub open spec fn meta_file(log_dir: Seq<char>, name: Seq<char>) -> Seq<char> {
    text::joined_path(log_dir, name + ".meta.json"@)
}

/// The file that records a task.
pub fn meta_path(log_dir: &str, name: &str) -> (path: String)
    ensures
        path@ == meta_file(log_dir@, name@),
{
    let mut file = name.to_owned();
    file.append(".meta.json");
    join_path(log_dir, file.as_str())
}

/// The record of a task that waits for its wave.
pub open spec fn waiting_record(task: TaskDef, wave: int) -> MetaRecord {
    MetaRecord {
        wave: Some(wave as u32),
        status: TaskStatus::Pending,
        ..MetaRecord::blank(task.name@, task.cwd@, task.prompt@)
    }
}

/// The records of the tasks of one wave.
pub open spec fn wave_records(tasks: Seq<TaskDef>, wave: int) -> Seq<MetaRecord> {
    tasks.map_values(|task: TaskDef| waiting_record(task, wave))
}

/// The records of all tasks, wave after wave.
pub open spec fn waiting_records(waves: Seq<Vec<TaskDef>>) -> Seq<MetaRecord>
    decreases waves.len(),
{
    if waves.len() == 0 {
        Seq::empty()
    } else {
        waiting_records(waves.drop_last()) + wave_records(waves.last()@, waves.len() - 1)
    }
}

/// What a list of records says.
pub open spec fn records(metas: Seq<TaskMeta>) -> Seq<MetaRecord> {
    metas.map_values(|meta: TaskMeta| meta@)
}

/// The records to write before anything runs, so that every task shows from the start.
pub fn pending_metas(waves: &Vec<Vec<TaskDef>>) -> (metas: Vec<TaskMeta>)
    ensures
        records(metas@) == waiting_records(waves@),
        metas@.len() == all_tasks(waves@).len(),
        forall|k: int, j: int|
            0 <= k < waves@.len() && 0 <= j < waves@[k]@.len() ==> {
                let meta = metas@[all_tasks(waves@.take(k)).len() + j];
                &&& meta.name@ == (#[trigger] waves@[k]@[j]).name@
                &&& meta.cwd@ == waves@[k]@[j].cwd@
                &&& meta.prompt@ == waves@[k]@[j].prompt@
                &&& meta.wave == Some(k as u32)
                &&& meta.status == TaskStatus::Pending
                &&& meta.error is None
                &&& meta.end_time is None
            },
{
    let mut metas: Vec<TaskMeta> = Vec::new();
    let mut i: usize = 0;
    proof {
        assert(records(metas@) =~= waiting_records(waves@.take(0)));
    }
    while i < waves.len()
        invariant
            i <= waves@.len(),
            records(metas@) == waiting_records(waves@.take(i as int)),
        decreases waves@.len() - i,
    {
        let wave = &waves[i];
        let ghost before = records(metas@);
        let mut j: usize = 0;
        while j < wave.len()
            invariant
                j <= wave@.len(),
                records(metas@) =~= before + wave_records(wave@.take(j as int), i as int),
            decreases wave@.len() - j,
        {
            let task = &wave[j];
            let mut meta = TaskMeta::new(
                task.name.as_str(),
                task.cwd.as_str(),
                task.prompt.as_str(),
            );
            meta.wave = Some(i as u32);
            meta.status = TaskStatus::Pending;
            let ghost so_far = records(metas@);
            metas.push(meta);
            proof {
                assert(meta@ == waiting_record(*task, i as int));
                assert(records(metas@) =~= so_far.push(meta@));
                assert(wave_records(wave@.take(j + 1), i as int) =~= wave_records(
                    wave@.take(j as int),
                    i as int,
                ).push(waiting_record(*task, i as int)));
            }
            j += 1;
        }
        proof {
            assert(wave@.take(wave@.len() as int) =~= wave@);
            assert(waves@.take(i + 1).drop_last() =~= waves@.take(i as int));
            assert(waves@.take(i + 1).last() == waves@[i as int]);
        }
        i += 1;
    }
    proof {
        assert(waves@.take(waves@.len() as int) =~= waves@);
        command_laws::lemma_as_many_records(waves@);
        assert forall|k: int, j: int|
            0 <= k < waves@.len() && 0 <= j < waves@[k]@.len() implies {
            let meta = metas@[all_tasks(waves@.take(k)).len() + j];
            &&& meta.name@ == (#[trigger] waves@[k]@[j]).name@
            &&& meta.cwd@ == waves@[k]@[j].cwd@
            &&& meta.prompt@ == waves@[k]@[j].prompt@
            &&& meta.wave == Some(k as u32)
            &&& meta.status == TaskStatus::Pending
            &&& meta.error is None
            &&& meta.end_time is None
        } by {
            command_laws::law_every_task_is_recorded_as_waiting(waves@, k, j);
            let at = all_tasks(waves@.take(k)).len() + j;
            assert(records(metas@)[at] == metas@[at]@);
        }
    }
    metas
}

/// What is reported of a task, given its record or the reason why there is none.
pub open spec fn report_of(task: TaskDef, loaded: Result<TaskMeta, String>) -> ReportRecord {
    match loaded {
        Ok(meta) => ReportRecord {
            name: meta.name@,
            status: meta.status,
            error: task::optional_text(meta.error),
        },
        Err(why) => ReportRecord {
            name: task.name@,
            status: TaskStatus::Failed,
            error: Some("failed to read task meta: "@ + why@),
        },
    }
}

/// What is reported of each task.
pub open spec fn reports_of(tasks: Seq<TaskDef>, loaded: Seq<Result<TaskMeta, String>>) -> Seq<
    ReportRecord,
> {
    Seq::new(tasks.len(), |i: int| report_of(tasks[i], loaded[i]))
}

/// What a list of reports says.
pub open spec fn report_records(reports: Seq<TaskRunReport>) -> Seq<ReportRecord> {
    reports.map_values(|report: TaskRunReport| report@)
}

/// The report of one task, given its record or the reason why there is none.
fn report_task(task: &TaskDef, loaded: &Result<TaskMeta, String>) -> (report: TaskRunReport)
    ensures
        report@ == report_of(*task, *loaded),
{
    match loaded {
        Ok(meta) => TaskRunReport {
            name: meta.name.clone(),
            status: meta.status,
            error: clone_text(&meta.error),
        },
        Err(why) => {
            let mut error = "failed to read task meta: ".to_owned();
            error.append(why.as_str());
            TaskRunReport {
                name: task.name.clone(),
                status: TaskStatus::Failed,
                error: Some(error),
            }
        },
    }
}

/// The reports of all tasks, wave after wave. `loaded` holds, in the same order, the record of
/// each task or the reason why it could not be read.
pub fn collect_reports(
    waves: &Vec<Vec<TaskDef>>,
    loaded: &Vec<Result<TaskMeta, String>>,
) -> (reports: Vec<TaskRunReport>)
    requires
        loaded@.len() == all_tasks(waves@).len(),
    ensures
        report_records(reports@) == reports_of(all_tasks(waves@), loaded@),
        reports@.len() == loaded@.len(),
        forall|i: int|
            0 <= i < reports@.len() ==> match loaded@[i] {
                Ok(meta) => {
                    &&& (#[trigger] reports@[i]).name@ == meta.name@
                    &&& reports@[i].status == meta.status
                    &&& match (reports@[i].error, meta.error) {
                        (Some(shown), Some(error)) => shown@ == error@,
                        (None, None) => true,
                        _ => false,
                    }
                },
                Err(why) => {
                    &&& reports@[i].name@ == all_tasks(waves@)[i].name@
                    &&& reports@[i].status == TaskStatus::Failed
                    &&& reports@[i].error matches Some(shown) && shown@
                        == "failed to read task meta: "@ + why@
                },
            },
{
    let ghost tasks = all_tasks(waves@);
    let mut reports: Vec<TaskRunReport> = Vec::new();
    let mut i: usize = 0;
    while i < waves.len()
        invariant
            i <= waves@.len(),
            tasks == all_tasks(waves@),
            loaded@.len() == tasks.len(),
            all_tasks(waves@.take(i as int)).len() == reports@.len(),
            reports@.len() <= tasks.len(),
            forall|k: int|
                0 <= k < reports@.len() ==> #[trigger] reports@[k]@ == report_of(
                    tasks[k],
                    loaded@[k],
                ),
        decreases waves@.len() - i,
    {
        let wave = &waves[i];
        let ghost base = reports@.len();
        let mut j: usize = 0;
        proof {
            lemma_fewer_waves(waves@, i as int);
        }
        while j < wave.len()
            invariant
                i < waves@.len(),
                j <= wave@.len(),
                *wave == waves@[i as int],
                tasks == all_tasks(waves@),
                loaded@.len() == tasks.len(),
                base == all_tasks(waves@.take(i as int)).len(),
                base + wave@.len() <= tasks.len(),
                reports@.len() == base + j,
                forall|k: int|
                    0 <= k < reports@.len() ==> #[trigger] reports@[k]@ == report_of(
                        tasks[k],
                        loaded@[k],
                    ),
            decreases wave@.len() - j,
        {
            proof {
                lemma_task_in_wave(waves@, i as int, j as int);
            }
            let report = report_task(&wave[j], &loaded[reports.len()]);
            reports.push(report);
            j += 1;
        }
        i += 1;
    }
    proof {
        assert(waves@.take(waves@.len() as int) =~= waves@);
        assert(report_records(reports@) =~= reports_of(tasks, loaded@));
        assert forall|i: int| 0 <= i < reports@.len() implies match loaded@[i] {
            Ok(meta) => {
                &&& (#[trigger] reports@[i]).name@ == meta.name@
                &&& reports@[i].status == meta.status
                &&& match (reports@[i].error, meta.error) {
                    (Some(shown), Some(error)) => shown@ == error@,
                    (None, None) => true,
                    _ => false,
                }
            },
            Err(why) => {
                &&& reports@[i].name@ == all_tasks(waves@)[i].name@
                &&& reports@[i].status == TaskStatus::Failed
                &&& reports@[i].error matches Some(shown) && shown@
                    == "failed to read task meta: "@ + why@
            },
        } by {
            assert(reports@[i]@ == report_of(tasks[i], loaded@[i]));
        }
    }
    reports
}

/// Where a task of a wave stands among all tasks.
proof fn lemma_task_in_wave(waves: Seq<Vec<TaskDef>>, i: int, j: int)
    requires
        0 <= i < waves.len(),
        0 <= j < waves[i]@.len(),
    ensures
        all_tasks(waves.take(i)).len() + j < all_tasks(waves).len(),
        all_tasks(waves)[all_tasks(waves.take(i)).len() + j] == waves[i]@[j],
    decreases waves.len(),
{
    let front = waves.drop_last();
    if i == waves.len() - 1 {
        assert(waves.take(i) =~= front);
    } else {
        lemma_task_in_wave(front, i, j);
        assert(front.take(i) =~= waves.take(i));
    }
}

/// The line that announces a wave.
pub open spec fn wave_line(wave: nat, size: nat) -> Seq<char> {
    "-- Wave "@ + text::decimal(wave) + " ("@ + text::decimal(size) + " task"@ + (if size == 1 {
        ""@
    } else {
        "s"@
    }) + ", parallel) --\n"@
}

/// The lines that announce waves.
pub open spec fn wave_lines(waves: Seq<Vec<TaskDef>>) -> Seq<char>
    decreases waves.len(),
{
    if waves.len() == 0 {
        Seq::empty()
    } else {
        wave_lines(waves.drop_last()) + wave_line(
            (waves.len() - 1) as nat,
            waves.last()@.len(),
        )
    }
}

/// What is printed before anything runs.
pub open spec fn announcement(waves: Seq<Vec<TaskDef>>) -> Seq<char> {
    "Launching "@ + text::decimal(all_tasks(waves).len()) + " tasks in "@ + text::decimal(
        waves.len(),
    ) + " wave(s)...\n\n"@ + wave_lines(waves) + (if waves.len() > 0 {
        "\n"@
    } else {
        ""@
    })
}

/// Writes what is printed before anything runs. `total` is the number of tasks.
pub fn announce(waves: &Vec<Vec<TaskDef>>, total: usize) -> (printed: String)
    requires
        total == all_tasks(waves@).len(),
    ensures
        printed@ == announcement(waves@),
{
    let mut printed = "Launching ".to_owned();
    printed.append(decimal_text(total).as_str());
    printed.append(" tasks in ");
    printed.append(decimal_text(waves.len()).as_str());
    printed.append(" wave(s)...\n\n");
    let ghost head = printed@;
    let mut i: usize = 0;
    proof {
        assert(head + wave_lines(waves@.take(0)) =~= head);
    }
    while i < waves.len()
        invariant
            i <= waves@.len(),
            printed@ == head + wave_lines(waves@.take(i as int)),
        decreases waves@.len() - i,
    {
        let ghost so_far = printed@;
        let size = waves[i].len();
        printed.append("-- Wave ");
        printed.append(decimal_text(i).as_str());
        printed.append(" (");
        printed.append(decimal_text(size).as_str());
        printed.append(" task");
        printed.append(if size == 1 { "" } else { "s" });
        printed.append(", parallel) --\n");
        proof {
            assert(printed@ =~= so_far + wave_line(i as nat, size as nat));
            assert(waves@.take(i + 1).drop_last() =~= waves@.take(i as int));
            assert(waves@.take(i + 1).last() == waves@[i as int]);
            assert(printed@ =~= head + wave_lines(waves@.take(i + 1)));
        }
        i += 1;
    }
    proof {
        assert(waves@.take(waves@.len() as int) =~= waves@);
    }
    printed.append(if waves.len() > 0 { "\n" } else { "" });
    printed
}

/// The mark of a status in the summary.
pub open spec fn icon(status: TaskStatus) -> Seq<char> {
    match status {
        TaskStatus::Done => "\x1b[32m✓\x1b[0m"@,
        TaskStatus::Failed => "\x1b[31m✗\x1b[0m"@,
        TaskStatus::Cancelled => "\x1b[35m⊘\x1b[0m"@,
        _ => "?"@,
    }
}

/// The line of a report in the summary.
pub open spec fn report_line(report: ReportRecord) -> Seq<char> {
    "  "@ + icon(report.status) + " "@ + report.name + (match report.error {
        Some(error) => "  -- "@ + error,
        None => Seq::empty(),
    }) + "\n"@
}

/// The lines of reports in the summary.
pub open spec fn report_lines(reports: Seq<ReportRecord>) -> Seq<char>
    decreases reports.len(),
{
    if reports.len() == 0 {
        Seq::empty()
    } else {
        report_lines(reports.drop_last()) + report_line(reports.last())
    }
}

/// The line above and below the summary's title.
pub open spec fn rule_line() -> Seq<char> {
    "==================================================\n"@
}

/// What is printed at the end of a run.
pub open spec fn summary(reports: Seq<ReportRecord>, total: nat, base: Seq<char>) -> Seq<char> {
    "\n"@ + rule_line() + "  SUMMARY ("@ + text::decimal(total) + " tasks)\n"@ + rule_line()
        + report_lines(reports) + "\n  Results: "@ + base + "/outputs/*.md\n"@
}

/// Writes what is printed at the end of a run.
pub fn summarize(reports: &Vec<TaskRunReport>, total: usize, base: &str) -> (printed: String)
    ensures
        printed@ == summary(report_records(reports@), total as nat, base@),
{
    let rule = "==================================================\n";
    let mut printed = "\n".to_owned();
    printed.append(rule);
    printed.append("  SUMMARY (");
    printed.append(decimal_text(total).as_str());
    printed.append(" tasks)\n");
    printed.append(rule);
    let ghost head = printed@;
    let ghost all = report_records(reports@);
    let mut i: usize = 0;
    proof {
        assert(head + report_lines(all.take(0)) =~= head);
    }
    while i < reports.len()
        invariant
            i <= reports@.len(),
            all == report_records(reports@),
            printed@ == head + report_lines(all.take(i as int)),
        decreases reports@.len() - i,
    {
        let ghost so_far = printed@;
        let report = &reports[i];
        printed.append("  ");
        printed.append(
            match report.status {
                TaskStatus::Done => "\x1b[32m✓\x1b[0m",
                TaskStatus::Failed => "\x1b[31m✗\x1b[0m",
                TaskStatus::Cancelled => "\x1b[35m⊘\x1b[0m",
                _ => "?",
            },
        );
        printed.append(" ");
        printed.append(report.name.as_str());
        if let Some(error) = &report.error {
            printed.append("  -- ");
            printed.append(error.as_str());
        }
        printed.append("\n");
        proof {
            assert(all[i as int] == report@);
            assert(printed@ =~= so_far + report_line(report@));
            assert(all.take(i + 1).drop_last() =~= all.take(i as int));
            assert(all.take(i + 1).last() == report@);
            assert(printed@ =~= head + report_lines(all.take(i + 1)));
        }
        i += 1;
    }
    proof {
        assert(all.take(all.len() as int) =~= all);
    }
    printed.append("\n  Results: ");
    printed.append(base);
    printed.append("/outputs/*.md\n");
    printed
}

} // verus!
