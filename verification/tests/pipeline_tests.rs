use mapreduce::coordinator::Coordinator;
use mapreduce::task::{ReportArgs, TaskType};
use mapreduce::worker::{
    group_kvs, handle_map, handle_reduce, ihash, kind_or_default, partition_of, work_step,
    MapFunc, ReduceFunc, WorkerAction,
};
use mapreduce::kv::{sort_kvs, str_le};
use mapreduce::KeyValue;

fn kv(k: &str, v: &str) -> KeyValue {
    KeyValue { key: k.to_string(), value: v.to_string() }
}

struct WordCount;

impl MapFunc for WordCount {
    fn call(&self, _filename: String, contents: String) -> Vec<KeyValue> {
        contents.split_whitespace().map(|w| kv(w, "1")).collect()
    }
}

struct CountSum;

impl ReduceFunc for CountSum {
    fn call(&self, _key: String, values: Vec<String>) -> String {
        let total: u64 = values.iter().map(|v| v.parse::<u64>().unwrap()).sum();
        total.to_string()
    }
}

#[test]
fn hash_is_the_byte_sum() {
    assert_eq!(ihash("x"), 120);
    assert_eq!(ihash(""), 0);
    assert_eq!(ihash("abc"), 97 + 98 + 99);
}

#[test]
fn partition_is_deterministic_across_calls() {
    for key in ["x", "y", "z", "longer key", "ünïcödé"] {
        let first = partition_of(key, 5);
        for _ in 0..3 {
            assert_eq!(partition_of(key, 5), first);
        }
        assert!(first < 5);
    }
    assert_eq!(partition_of("x", 2), 0);
    assert_eq!(partition_of("y", 2), 1);
    assert_eq!(partition_of("z", 2), 0);
}

#[test]
fn sort_orders_by_key_then_value() {
    let sorted = sort_kvs(vec![kv("b", "1"), kv("a", "2"), kv("a", "1"), kv("b", "0")]);
    assert_eq!(sorted, vec![kv("a", "1"), kv("a", "2"), kv("b", "0"), kv("b", "1")]);
}

#[test]
fn string_order_is_lexicographic() {
    assert!(str_le("", "a"));
    assert!(str_le("a", "ab"));
    assert!(str_le("ab", "b"));
    assert!(!str_le("b", "ab"));
    assert!(str_le("same", "same"));
}

#[test]
fn grouping_clusters_equal_keys() {
    let sorted = sort_kvs(vec![kv("x", "1"), kv("y", "1"), kv("x", "1")]);
    let groups = group_kvs(&sorted);
    assert_eq!(groups.len(), 2);
    assert_eq!(groups[0].key, "x");
    assert_eq!(groups[0].values, vec!["1".to_string(), "1".to_string()]);
    assert_eq!(groups[1].key, "y");
    assert_eq!(groups[1].values, vec!["1".to_string()]);
}

#[test]
fn map_task_produces_one_file_per_bucket() {
    let out = handle_map("a.txt".to_string(), "x y x".to_string(), 1, 2, &WordCount);
    assert_eq!(out.files.len(), 2);
    assert_eq!(out.files[0].name, "mr-1-0");
    assert_eq!(out.files[1].name, "mr-1-1");
    // x hashes to bucket 0 and y to bucket 1; buckets are sorted.
    assert_eq!(out.files[0].contents, "1 1 x1\n1 1 x1\n");
    assert_eq!(out.files[1].contents, "1 1 y1\n");
    match out.report {
        ReportArgs::MapDone { task, intermediates } => {
            assert_eq!(task, "a.txt");
            assert_eq!(intermediates, vec!["mr-1-0".to_string(), "mr-1-1".to_string()]);
        }
        _ => panic!("a map task must send a map report"),
    }
}

#[test]
fn reduce_task_merges_groups_and_renders_lines() {
    let inter = vec!["1 1 x1\n1 1 x1\n".to_string(), "1 1 z1\n".to_string()];
    let out = handle_reduce(0, &inter, &CountSum).unwrap();
    assert_eq!(out.name, "mr-out-0");
    assert_eq!(out.contents, "x 2\nz 1\n");
    match out.report {
        ReportArgs::ReduceDone { id } => assert_eq!(id, 0),
        _ => panic!("a reduce task must send a reduce report"),
    }
}

#[test]
fn reduce_task_fails_on_a_corrupt_intermediate() {
    let inter = vec!["1 1 x1\n".to_string(), "not an encoding".to_string()];
    assert!(handle_reduce(0, &inter, &CountSum).is_err());
}

#[test]
fn worker_decisions_follow_the_reply() {
    let mut c = Coordinator::new(10, 1, vec!["a.txt".to_string()]);
    let reply = c.request_task(0);
    match work_step(reply) {
        WorkerAction::RunMap { filename, task_no, n_reduce } => {
            assert_eq!(filename, "a.txt");
            assert_eq!(task_no, 1);
            assert_eq!(n_reduce, 1);
        }
        _ => panic!("a map assignment must run a map task"),
    }
    let waiting = c.request_task(1);
    assert!(matches!(work_step(waiting), WorkerAction::Pause));
    c.report_task(ReportArgs::MapDone { task: "a.txt".to_string(), intermediates: Vec::new() });
    c.report_task(ReportArgs::ReduceDone { id: 0 });
    let finished = c.request_task(2);
    assert!(matches!(work_step(finished), WorkerAction::Finish));
}

#[test]
fn malformed_kind_integers_mean_no_task() {
    assert_eq!(kind_or_default(0), TaskType::NoTask);
    assert_eq!(kind_or_default(1), TaskType::MapTask);
    assert_eq!(kind_or_default(2), TaskType::ReduceTask);
    assert_eq!(kind_or_default(3), TaskType::NoTask);
    assert_eq!(kind_or_default(-9), TaskType::NoTask);
}

#[test]
fn end_to_end_word_count() {
    // Two input files, two partitions, word-count map and reduce.
    let inputs = vec![
        ("a.txt".to_string(), "x y x".to_string()),
        ("b.txt".to_string(), "y z".to_string()),
    ];
    let names: Vec<String> = inputs.iter().map(|(n, _)| n.clone()).collect();
    let mut c = Coordinator::new(10, 2, names);
    let mut disk: Vec<(String, String)> = Vec::new();
    let mut outputs: Vec<(String, String)> = Vec::new();
    let mut now: u64 = 0;
    loop {
        let reply = c.request_task(now);
        now += 1;
        match work_step(reply) {
            WorkerAction::RunMap { filename, task_no, n_reduce } => {
                let contents = inputs
                    .iter()
                    .find(|(n, _)| *n == filename)
                    .map(|(_, c)| c.clone())
                    .unwrap();
                let out = handle_map(filename, contents, task_no, n_reduce, &WordCount);
                for f in out.files {
                    disk.push((f.name, f.contents));
                }
                c.report_task(out.report);
            }
            WorkerAction::RunReduce { task_no, intermediates } => {
                let texts: Vec<String> = intermediates
                    .iter()
                    .map(|n| disk.iter().find(|(d, _)| d == n).unwrap().1.clone())
                    .collect();
                let out = handle_reduce(task_no, &texts, &CountSum).unwrap();
                outputs.push((out.name, out.contents));
                c.report_task(out.report);
            }
            WorkerAction::Pause => {}
            WorkerAction::Finish => break,
        }
    }
    assert!(c.done());
    // x and z hash to partition 0, y to partition 1; each key appears
    // in exactly one output file, keys ascending within a file.
    outputs.sort();
    assert_eq!(
        outputs,
        vec![
            ("mr-out-0".to_string(), "x 2\nz 1\n".to_string()),
            ("mr-out-1".to_string(), "y 2\n".to_string()),
        ]
    );
}
