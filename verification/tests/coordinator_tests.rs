use mapreduce::coordinator::{Coordinator, CoordinatorService};
use mapreduce::task::{ReportArgs, TaskType};

fn files(names: &[&str]) -> Vec<String> {
    names.iter().map(|s| s.to_string()).collect()
}

#[test]
fn fresh_coordinator_is_not_done() {
    let c = Coordinator::new(10, 2, files(&["a.txt", "b.txt"]));
    assert!(!c.done());
}

#[test]
fn no_inputs_and_no_partitions_is_done_at_once() {
    let c = Coordinator::new(10, 0, Vec::new());
    assert!(c.done());
}

#[test]
fn duplicate_input_files_become_one_task() {
    let mut c = Coordinator::new(10, 1, files(&["a.txt", "a.txt"]));
    let first = c.next_map_task(0);
    assert_eq!(first, Some("a.txt".to_string()));
    assert_eq!(c.next_map_task(0), None);
}

#[test]
fn map_tasks_come_before_any_reduce_task() {
    let mut c = Coordinator::new(10, 2, files(&["a.txt"]));
    let r = c.request_task(0);
    assert_eq!(r.kind, TaskType::MapTask);
    assert_eq!(r.filename, "a.txt");
    assert_eq!(r.task_no, 1);
    assert_eq!(r.n_reduce, 2);
    assert!(!r.done);
    // The map task is leased; nothing else may be handed out, and in
    // particular no reduce task while the map ledger is non-empty.
    let r2 = c.request_task(5);
    assert_eq!(r2.kind, TaskType::NoTask);
    assert!(!r2.done);
}

#[test]
fn reduce_task_carries_partition_intermediates() {
    let mut c = Coordinator::new(10, 2, files(&["a.txt"]));
    let r = c.request_task(0);
    assert_eq!(r.kind, TaskType::MapTask);
    c.report_task(ReportArgs::MapDone {
        task: "a.txt".to_string(),
        intermediates: files(&["mr-1-0", "mr-1-1"]),
    });
    let r2 = c.request_task(1);
    assert_eq!(r2.kind, TaskType::ReduceTask);
    assert_eq!(r2.task_no, 0);
    assert_eq!(r2.intermediates, files(&["mr-1-0"]));
    let r3 = c.request_task(1);
    assert_eq!(r3.kind, TaskType::ReduceTask);
    assert_eq!(r3.task_no, 1);
    assert_eq!(r3.intermediates, files(&["mr-1-1"]));
}

#[test]
fn no_reduce_until_every_map_is_reported() {
    let mut c = Coordinator::new(10, 1, files(&["a.txt", "b.txt"]));
    let r1 = c.request_task(0);
    let r2 = c.request_task(0);
    assert_eq!(r1.kind, TaskType::MapTask);
    assert_eq!(r2.kind, TaskType::MapTask);
    c.report_task(ReportArgs::MapDone { task: r1.filename, intermediates: files(&["mr-1-0"]) });
    // One map task is still outstanding, though none is eligible and
    // none will ever be reported by a live worker: still no reduce,
    // even long after every lease has expired a reduce would only
    // come once the map ledger is empty.
    let r3 = c.request_task(100);
    assert_eq!(r3.kind, TaskType::MapTask);
    assert_eq!(r3.filename, r2.filename);
    c.report_task(ReportArgs::MapDone { task: r2.filename, intermediates: files(&["mr-2-0"]) });
    let r4 = c.request_task(101);
    assert_eq!(r4.kind, TaskType::ReduceTask);
}

#[test]
fn lease_expiry_boundary() {
    // Assigned at time 3 with timeout 10: never eligible strictly
    // before 13, eligible at exactly 13.
    let mut c = Coordinator::new(10, 1, files(&["a.txt"]));
    assert_eq!(c.next_map_task(3), Some("a.txt".to_string()));
    assert_eq!(c.next_map_task(12), None);
    assert_eq!(c.next_map_task(13), Some("a.txt".to_string()));
}

#[test]
fn crashed_worker_map_task_is_reassigned_and_late_report_tolerated() {
    let mut c = Coordinator::new(10, 1, files(&["a.txt"]));
    // Worker one receives the task and crashes before reporting.
    let r1 = c.request_task(0);
    assert_eq!(r1.kind, TaskType::MapTask);
    assert_eq!(r1.filename, "a.txt");
    // After the timeout a second request returns the same filename.
    let r2 = c.request_task(10);
    assert_eq!(r2.kind, TaskType::MapTask);
    assert_eq!(r2.filename, "a.txt");
    // Worker two reports; the ledger drains.
    c.report_task(ReportArgs::MapDone {
        task: "a.txt".to_string(),
        intermediates: files(&["mr-2-0"]),
    });
    // The late report from worker one is accepted without error and
    // does not resurrect the task.
    c.report_task(ReportArgs::MapDone {
        task: "a.txt".to_string(),
        intermediates: files(&["mr-1-0"]),
    });
    let r3 = c.request_task(30);
    assert_ne!(r3.kind, TaskType::MapTask);
}

#[test]
fn reporting_a_map_task_twice_equals_reporting_once() {
    let mut c = Coordinator::new(10, 1, files(&["a.txt", "b.txt"]));
    let no_files: Vec<String> = Vec::new();
    c.report_task(ReportArgs::MapDone { task: "a.txt".to_string(), intermediates: no_files.clone() });
    c.report_task(ReportArgs::MapDone { task: "a.txt".to_string(), intermediates: no_files });
    // Exactly one map task remains, and it is b.txt.
    assert_eq!(c.next_map_task(0), Some("b.txt".to_string()));
    assert_eq!(c.next_map_task(0), None);
}

#[test]
fn reporting_an_absent_reduce_ordinal_is_acknowledged_quietly() {
    let mut c = Coordinator::new(10, 2, Vec::new());
    c.report_task(ReportArgs::ReduceDone { id: 7 });
    assert!(!c.done());
    c.report_task(ReportArgs::ReduceDone { id: 0 });
    c.report_task(ReportArgs::ReduceDone { id: 0 });
    c.report_task(ReportArgs::ReduceDone { id: 1 });
    assert!(c.done());
    // Still quiet once everything is done.
    c.report_task(ReportArgs::ReduceDone { id: 1 });
    assert!(c.done());
}

#[test]
fn done_stays_true_forever_after() {
    let mut c = Coordinator::new(5, 1, files(&["a.txt"]));
    assert!(!c.done());
    c.report_task(ReportArgs::MapDone { task: "a.txt".to_string(), intermediates: Vec::new() });
    assert!(!c.done());
    c.report_task(ReportArgs::ReduceDone { id: 0 });
    assert!(c.done());
    let r = c.request_task(100);
    assert_eq!(r.kind, TaskType::NoTask);
    assert!(r.done);
    assert!(c.done());
}

#[test]
fn service_wraps_a_fresh_coordinator() {
    let s = CoordinatorService::new(10, 3, files(&["a.txt"]));
    assert!(!s.coordinator.done());
}

#[test]
fn task_type_wire_codes() {
    assert_eq!(TaskType::try_from(0), Ok(TaskType::NoTask));
    assert_eq!(TaskType::try_from(1), Ok(TaskType::MapTask));
    assert_eq!(TaskType::try_from(2), Ok(TaskType::ReduceTask));
    assert_eq!(TaskType::try_from(3), Err(()));
    assert_eq!(TaskType::try_from(-1), Err(()));
    assert_eq!(TaskType::MapTask.as_i32(), 1);
    assert_eq!(TaskType::NoTask.as_i32(), 0);
    assert_eq!(TaskType::ReduceTask.as_i32(), 2);
}
