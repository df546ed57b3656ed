use mapreduce::coordinator::{check_task_repeat, worker_action, CoordinatorMgr, RunningStatus, TaskResp, WorkerAction};
use mapreduce::task::{Task, TaskType};

fn s(x: &str) -> String {
    x.to_string()
}

#[test]
fn lib_it_works() {
    let result = 2 + 2;
    assert_eq!(result, 4);
}

#[test]
fn it_works() {
    let result = 2 + 2;
    assert_eq!(result, 4);
}

#[test]
fn test_chunk_oriter() {}

#[test]
fn test_file_dist2() {
    let files = vec![
        s("mr-a31b4bbfc48c4f068b1d7e06a217cc70_36751d32ab68433b9bc7aee9da51c587-0"),
        s("mr-3b11093f152d42a1aaba78da46976573_36751d32ab68433b9bc7aee9da51c587-0"),
        s("mr-aaff1aa6f6514c3488211af42cc82323_36751d32ab68433b9bc7aee9da51c587-0"),
        s("mr-931d4d7ed6944f2bbf5e7bbb098905df_36751d32ab68433b9bc7aee9da51c587-0"),
        s("mr-3ae28425384e4b40a539338e5f78499b_36751d32ab68433b9bc7aee9da51c587-0"),
        s("mr-754b1a265fa940f8881195e3008b4fae_36751d32ab68433b9bc7aee9da51c587-0"),
        s("mr-ff34e84a8c844da09c2ec92883ffc88e_36751d32ab68433b9bc7aee9da51c587-0"),
    ];
    let map = vec![files];
    let task_id = "a31b4bbfc48c4f068b1d7e06a217cc70";
    assert_eq!(check_task_repeat(task_id, &map), true);
    let task_id = "a2fc90565c8f40a6944a216ea60ea47a";
    assert_eq!(check_task_repeat(task_id, &map), false);
}

#[test]
fn repeat_check_on_no_bins() {
    let map: Vec<Vec<String>> = Vec::new();
    assert!(!check_task_repeat("abc", &map));
}

#[test]
fn empty_input_finishes_at_once() {
    let mut c = CoordinatorMgr::new(Vec::new(), 3, 1);
    let r = c.request_task(s("w"));
    assert_eq!(r.status, RunningStatus::Finish);
    assert!(r.task.is_none());
    let r = c.request_task(s("w"));
    assert_eq!(r.status, RunningStatus::Finish);
}

#[test]
fn wait_while_a_task_runs() {
    let mut c = CoordinatorMgr::new(vec![s("a.txt")], 2, 1);
    let r = c.request_task(s("w1"));
    assert_eq!(r.status, RunningStatus::Running);
    let d = r.task.unwrap();
    assert_eq!(d.files, vec![s("a.txt")]);
    assert_eq!(d.status, TaskType::MapTask);
    assert_eq!(d.out_file_num, 2);
    assert_eq!(d.work_id, s("w1"));
    assert_eq!(d.task_id.len(), 32);
    let r = c.request_task(s("w2"));
    assert_eq!(r.status, RunningStatus::Wait);
    assert!(r.task.is_none());
    assert!(!c.is_finish());
}

#[test]
fn duplicate_submit_records_once() {
    let mut c = CoordinatorMgr::new(vec![s("a.txt")], 2, 1);
    let d = c.request_task(s("w")).task.unwrap();
    let out = vec![
        format!("out/mr-{}_w-0", d.task_id),
        format!("out/mr-{}_w-1", d.task_id),
    ];
    let r = c.submit_task(d.task_id.clone(), s("w"), out.clone());
    assert_eq!(r.status, RunningStatus::Wait);
    c.submit_task(d.task_id.clone(), s("w"), out.clone());
    let r0 = c.request_task(s("x")).task.unwrap();
    let r1 = c.request_task(s("x")).task.unwrap();
    assert_eq!(r0.status, TaskType::ReduceTask);
    assert_eq!(r0.files, vec![out[0].clone()]);
    assert_eq!(r1.files, vec![out[1].clone()]);
    assert_eq!(c.request_task(s("x")).status, RunningStatus::Wait);
    c.submit_task(r0.task_id.clone(), s("x"), vec![s("out/mr-out-0")]);
    c.submit_task(r1.task_id.clone(), s("x"), vec![s("out/mr-out-1")]);
    assert_eq!(c.request_task(s("x")).status, RunningStatus::Finish);
    assert_eq!(c.request_task(s("y")).status, RunningStatus::Finish);
}

#[test]
fn single_bin_gives_one_reduce_task() {
    let mut c = CoordinatorMgr::new(vec![s("a.txt"), s("b.txt")], 1, 1);
    let a = c.request_task(s("w")).task.unwrap();
    let b = c.request_task(s("w")).task.unwrap();
    assert_eq!(a.files, vec![s("a.txt")]);
    assert_eq!(b.files, vec![s("b.txt")]);
    c.submit_task(a.task_id.clone(), s("w"), vec![format!("mr-{}_w-0", a.task_id)]);
    assert_eq!(c.request_task(s("w")).status, RunningStatus::Wait);
    c.submit_task(b.task_id.clone(), s("w"), vec![format!("mr-{}_w-0", b.task_id)]);
    let r = c.request_task(s("w")).task.unwrap();
    assert_eq!(r.status, TaskType::ReduceTask);
    assert_eq!(r.files.len(), 2);
    assert_eq!(c.request_task(s("w")).status, RunningStatus::Wait);
}

#[test]
fn map_without_output_still_finishes() {
    let mut c = CoordinatorMgr::new(vec![s("a.txt")], 3, 1);
    let a = c.request_task(s("w")).task.unwrap();
    c.submit_task(a.task_id.clone(), s("w"), Vec::new());
    assert!(c.is_finish());
    assert_eq!(c.request_task(s("w")).status, RunningStatus::Finish);
}

#[test]
fn unknown_submission_changes_nothing() {
    let mut c = CoordinatorMgr::new(vec![s("a.txt")], 1, 1);
    let a = c.request_task(s("w")).task.unwrap();
    c.submit_task(a.task_id.clone(), s("other"), vec![s("x-0")]);
    assert_eq!(c.request_task(s("w")).status, RunningStatus::Wait);
    assert!(!c.is_map_finish());
}

#[test]
fn files_beyond_fan_out_are_ignored() {
    let mut c = CoordinatorMgr::new(vec![s("a.txt")], 1, 1);
    let a = c.request_task(s("w")).task.unwrap();
    c.submit_task(a.task_id.clone(), s("w"), vec![s("p-0"), s("p-1")]);
    let r = c.request_task(s("w")).task.unwrap();
    assert_eq!(r.files, vec![s("p-0")]);
    assert_eq!(c.request_task(s("w")).status, RunningStatus::Wait);
}

#[test]
fn task_running_key() {
    let mut t = Task::new(vec![s("f")], TaskType::MapTask, 4);
    assert_eq!(t.get_running_id(), format!("{}_", t.task_id));
    let d = t.to_distribution(s("w9"));
    assert_eq!(t.get_running_id(), format!("{}_w9", d.task_id));
    assert_eq!(d.out_file_num, 4);
    assert!(t.task_id.chars().all(|c| c.is_ascii_hexdigit() && !c.is_ascii_uppercase()));
}

#[test]
fn worker_decisions() {
    let wait = TaskResp { task: None, status: RunningStatus::Wait };
    assert_eq!(worker_action(&wait), WorkerAction::Poll);
    let fin = TaskResp { task: None, status: RunningStatus::Finish };
    assert_eq!(worker_action(&fin), WorkerAction::Exit);
    let empty = TaskResp { task: None, status: RunningStatus::Running };
    assert_eq!(worker_action(&empty), WorkerAction::Poll);
    let mut c = CoordinatorMgr::new(vec![s("a.txt")], 1, 1);
    let r = c.request_task(s("w"));
    assert_eq!(worker_action(&r), WorkerAction::Execute);
}

#[test]
fn default_task() {
    let t = Task::default();
    assert!(t.files.is_empty());
    assert_eq!(t.task_type, TaskType::MapTask);
    assert_eq!(t.out_file_num, 1);
    assert!(t.work_id.is_none());
    assert_eq!(t.task_id.len(), 32);
    assert_ne!(Task::default().task_id, t.task_id);
}
