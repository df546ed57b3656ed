use vstd::prelude::*;
use crate::text::cat;

verus! {

/// What a task does with its files.
#[derive(Clone, Copy, Debug, PartialEq, Eq, Structural)]
pub enum TaskType {
    MapTask,
    ReduceTask,
}

/// A lowercase hexadecimal digit.
pub open spec fn is_hex_lower(c: char) -> bool {
    ('0' <= c && c <= '9') || ('a' <= c && c <= 'f')
}

/// The shape of a freshly minted task identifier: 32 lowercase hex digits.
pub open spec fn is_task_id(s: Seq<char>) -> bool {
    s.len() == 32 && forall|i: int| 0 <= i < s.len() ==> is_hex_lower(#[trigger] s[i])
}

/// Relies on uuid's `Uuid::new_v4` formatted by `simple()`: 32 lowercase hex digits.
#[verifier::external_body]
fn fresh_task_id() -> (r: String)
    ensures
        is_task_id(r@),
{
    uuid::Uuid::new_v4().simple().to_string()
}

/// A unit of work as the coordinator keeps it.
#[derive(Debug)]
pub struct Task {
    pub task_id: String,
    pub work_id: Option<String>,
    pub files: Vec<String>,
    pub task_type: TaskType,
    pub out_file_num: i32,
}

/// The copy of a task that a worker receives.
#[derive(Debug)]
pub struct TaskDist {
    pub task_id: String,
    pub work_id: String,
    pub files: Vec<String>,
    pub out_file_num: i32,
    pub status: TaskType,
}

/// The key of the running registry: `{taskId}_{workId}`.
pub open spec fn running_key(task_id: Seq<char>, work_id: Seq<char>) -> Seq<char> {
    task_id + seq!['_'] + work_id
}

/// The files of a task as plain sequences.
pub open spec fn files_view(files: Seq<String>) -> Seq<Seq<char>> {
    files.map_values(|f: String| f@)
}

impl Task {
    pub open spec fn running_key_of(&self) -> Seq<char> {
        match self.work_id {
            Some(w) => running_key(self.task_id@, w@),
            None => running_key(self.task_id@, Seq::empty()),
        }
    }

    /// A new, unassigned task with a freshly minted identifier.
    pub fn new(file_path: Vec<String>, ty: TaskType, out_file_num: i32) -> (r: Task)
        ensures
            r.files@ == file_path@,
            r.task_type == ty,
            r.out_file_num == out_file_num,
            r.work_id.is_none(),
            is_task_id(r.task_id@),
    {
        Task { task_id: fresh_task_id(), work_id: None, files: file_path, task_type: ty, out_file_num }
    }

    /// Assigns the task to `work_id` and returns the copy handed to that worker.
    pub fn to_distribution(&mut self, work_id: String) -> (r: TaskDist)
        ensures
            final(self).work_id == Some(work_id),
            final(self).task_id == old(self).task_id,
            final(self).files == old(self).files,
            final(self).task_type == old(self).task_type,
            final(self).out_file_num == old(self).out_file_num,
            r.task_id@ == old(self).task_id@,
            r.work_id@ == work_id@,
            r.files@ == old(self).files@,
            r.out_file_num == old(self).out_file_num,
            r.status == old(self).task_type,
    {
        self.work_id = Some(work_id.clone());
        let files = clone_files(&self.files);
        TaskDist {
            task_id: self.task_id.clone(),
            work_id,
            files,
            out_file_num: self.out_file_num,
            status: self.task_type,
        }
    }

    /// The key under which the task is registered while it runs.
    pub fn get_running_id(&self) -> (r: String)
        ensures
            r@ == self.running_key_of(),
    {
        let head = cat(self.task_id.as_str(), "_");
        proof {
            reveal_strlit("_");
        }
        match &self.work_id {
            Some(w) => cat(head.as_str(), w.as_str()),
            None => head,
        }
    }
}

impl Default for Task {
    /// An unassigned map task with no files, one shard, and a freshly minted identifier.
    fn default() -> (r: Task)
        ensures
            r.files@.len() == 0,
            r.task_type == TaskType::MapTask,
            r.out_file_num == 1,
            r.work_id.is_none(),
            is_task_id(r.task_id@),
    {
        Task::new(Vec::new(), TaskType::MapTask, 1)
    }
}

/// An element-by-element copy of a list of paths.
pub fn clone_files(files: &Vec<String>) -> (r: Vec<String>)
    ensures
        r@ == files@,
{
    let mut r: Vec<String> = Vec::new();
    let mut i: usize = 0;
    while i < files.len()
        invariant
            i <= files.len(),
            r@ == files@.subrange(0, i as int),
        decreases files.len() - i,
    {
        r.push(files[i].clone());
        i = i + 1;
    }
    assert(r@ =~= files@);
    r
}

} // verus!
