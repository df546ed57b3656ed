use vstd::prelude::*;
use crossbeam_queue::ArrayQueue;
use crate::task::{Task, TaskDist, TaskType, files_view, running_key, clone_files, is_task_id};
use crate::text::{cat, contains_seq, str_contains};

verus! {

#[verifier::external_type_specification]
#[verifier::external_body]
#[verifier::reject_recursive_types(T)]
pub struct ExArrayQueue<T>(ArrayQueue<T>);

/// The tasks held by a bounded queue, front first.
pub uninterp spec fn queue_items(q: ArrayQueue<Task>) -> Seq<Task>;

/// The capacity a bounded queue was made with.
pub uninterp spec fn queue_cap(q: ArrayQueue<Task>) -> nat;

/// Relies on crossbeam's `ArrayQueue::new`: an empty queue of the given capacity;
/// it panics on a zero capacity and on one too large to round up to a power of two.
#[verifier::external_body]
fn queue_new(cap: usize) -> (r: ArrayQueue<Task>)
    requires
        0 < cap <= 0x1000_0000,
    ensures
        queue_items(r) == Seq::<Task>::empty(),
        queue_cap(r) == cap,
{
    ArrayQueue::new(cap)
}

/// Relies on crossbeam's `ArrayQueue::push_mut`: the task goes to the back unless
/// the queue is full, in which case it is handed back.
#[verifier::external_body]
fn queue_push(q: &mut ArrayQueue<Task>, t: Task) -> (r: Result<(), Task>)
    ensures
        queue_cap(*final(q)) == queue_cap(*old(q)),
        queue_items(*old(q)).len() < queue_cap(*old(q)) ==> r is Ok && queue_items(*final(q))
            == queue_items(*old(q)).push(t),
        queue_items(*old(q)).len() >= queue_cap(*old(q)) ==> (r matches Err(x) && x == t)
            && queue_items(*final(q)) == queue_items(*old(q)),
{
    q.push_mut(t)
}

/// Relies on crossbeam's `ArrayQueue::pop_mut`: the front task, if any.
#[verifier::external_body]
fn queue_pop(q: &mut ArrayQueue<Task>) -> (r: Option<Task>)
    ensures
        queue_cap(*final(q)) == queue_cap(*old(q)),
        queue_items(*old(q)).len() == 0 ==> r is None && queue_items(*final(q)) == queue_items(
            *old(q),
        ),
        queue_items(*old(q)).len() > 0 ==> r == Some(queue_items(*old(q))[0]) && queue_items(
            *final(q),
        ) == queue_items(*old(q)).drop_first(),
{
    q.pop_mut()
}

/// Relies on crossbeam's `ArrayQueue::is_empty`.
#[verifier::external_body]
fn queue_is_empty(q: &ArrayQueue<Task>) -> (r: bool)
    ensures
        r == (queue_items(*q).len() == 0),
{
    q.is_empty()
}

/// What the coordinator tells a worker.
#[derive(Clone, Copy, Debug, PartialEq, Eq, Structural)]
pub enum RunningStatus {
    Running,
    Wait,
    Finish,
}

/// What a worker does with the answer to its request.
#[derive(Clone, Copy, Debug, PartialEq, Eq, Structural)]
pub enum WorkerAction {
    /// Run the task, then submit its outputs.
    Execute,
    /// Ask again.
    Poll,
    /// Stop.
    Exit,
}

/// A worker runs a task it was given, asks again when told to wait or when a
/// `Running` answer carries no task, and stops on `Finish`.
pub fn worker_action(resp: &TaskResp) -> (r: WorkerAction)
    ensures
        r == match resp.status {
            RunningStatus::Running => if resp.task is Some { WorkerAction::Execute } else { WorkerAction::Poll },
            RunningStatus::Wait => WorkerAction::Poll,
            RunningStatus::Finish => WorkerAction::Exit,
        },
{
    match resp.status {
        RunningStatus::Running => if resp.task.is_some() { WorkerAction::Execute } else { WorkerAction::Poll },
        RunningStatus::Wait => WorkerAction::Poll,
        RunningStatus::Finish => WorkerAction::Exit,
    }
}

/// The answer to a request or a submission.
#[derive(Debug)]
pub struct TaskResp {
    pub task: Option<TaskDist>,
    pub status: RunningStatus,
}

/// The reduce bins as plain sequences of paths.
pub type Bins = Seq<Seq<Seq<char>>>;

/// The task as it stands once `work_id` has been stamped on it.
pub open spec fn assigned(t: Task, work_id: String) -> Task {
    Task {
        task_id: t.task_id,
        work_id: Some(work_id),
        files: t.files,
        task_type: t.task_type,
        out_file_num: t.out_file_num,
    }
}

/// `d` is the copy of `t` handed to `work_id`.
pub open spec fn is_dist_of(d: TaskDist, t: Task, work_id: Seq<char>) -> bool {
    &&& d.task_id@ == t.task_id@
    &&& d.work_id@ == work_id
    &&& d.files@ == t.files@
    &&& d.out_file_num == t.out_file_num
    &&& d.status == t.task_type
}

/// `j` is the first running task whose key is `key`.
pub open spec fn is_first_key(s: Seq<Task>, key: Seq<char>, j: int) -> bool {
    &&& 0 <= j < s.len()
    &&& s[j].running_key_of() == key
    &&& forall|k: int| 0 <= k < j ==> (#[trigger] s[k]).running_key_of() != key
}

/// The index of the first running task with key `key`, or -1.
pub open spec fn first_key(s: Seq<Task>, key: Seq<char>) -> int {
    if exists|j: int| is_first_key(s, key, j) {
        choose|j: int| is_first_key(s, key, j)
    } else {
        -1
    }
}

/// Results of map task `task_id` are already recorded: a path in bin 0 mentions it.
pub open spec fn already_recorded(bins: Bins, task_id: Seq<char>) -> bool {
    bins.len() > 0 && exists|k: int| 0 <= k < bins[0].len() && contains_seq(#[trigger] bins[0][k], task_id)
}

/// The bins after appending the `i`-th file to bin `i`, for each `i < min(|files|, n)`.
pub open spec fn append_files(bins: Bins, files: Seq<Seq<char>>, n: int) -> Bins {
    let m = if files.len() < n { files.len() as int } else { n };
    let len = if bins.len() < m { m } else { bins.len() as int };
    Seq::new(
        len as nat,
        |i: int|
            {
                let b = if i < bins.len() { bins[i] } else { Seq::<Seq<char>>::empty() };
                if i < m { b.push(files[i]) } else { b }
            },
    )
}

/// A pending reduce task made from `bin`.
pub open spec fn is_reduce_task_for(t: Task, bin: Seq<Seq<char>>, n: int) -> bool {
    &&& files_view(t.files@) == bin
    &&& t.task_type == TaskType::ReduceTask
    &&& t.work_id.is_none()
    &&& is_task_id(t.task_id@)
    &&& t.out_file_num as int == n
}

/// Bins held as vectors, seen as plain sequences of paths.
pub open spec fn bins_view(v: Seq<Vec<String>>) -> Bins {
    v.map_values(|b: Vec<String>| files_view(b@))
}

/// A pending map task made from the input `path`.
pub open spec fn is_map_task_for(t: Task, path: Seq<char>, n: int) -> bool {
    &&& files_view(t.files@) == seq![path]
    &&& t.task_type == TaskType::MapTask
    &&& t.work_id.is_none()
    &&& is_task_id(t.task_id@)
    &&& t.out_file_num as int == n
}

/// There is at most one first match of a key.
proof fn lemma_first_key_unique(s: Seq<Task>, key: Seq<char>, j: int)
    requires
        is_first_key(s, key, j),
    ensures
        first_key(s, key) == j,
{
    assert(exists|j: int| is_first_key(s, key, j));
    let c = choose|c: int| is_first_key(s, key, c);
    if c < j {
        assert(s[c].running_key_of() != key);
    } else if c > j {
        assert(s[j].running_key_of() != key);
    }
}

/// Whether a path in bin 0 already mentions `task_id`, which marks the map task's
/// results as recorded.
pub fn check_task_repeat(task_id: &str, map: &Vec<Vec<String>>) -> (r: bool)
    ensures
        r == already_recorded(bins_view(map@), task_id@),
{
    if map.len() == 0 {
        return false;
    }
    let list = &map[0];
    proof {
        assert(bins_view(map@)[0] == files_view(list@));
    }
    let mut k: usize = 0;
    while k < list.len()
        invariant
            k <= list.len(),
            list == map@[0],
            map@.len() > 0,
            forall|x: int| 0 <= x < k ==> !contains_seq(#[trigger] files_view(list@)[x], task_id@),
        decreases list.len() - k,
    {
        if str_contains(list[k].as_str(), task_id) {
            assert(contains_seq(bins_view(map@)[0][k as int], task_id@));
            return true;
        }
        k = k + 1;
    }
    assert(!already_recorded(bins_view(map@), task_id@)) by {
        assert(bins_view(map@)[0] == files_view(list@));
    }
    false
}

/// The coordinator: the pending queue, the running registry and the reduce bins.
#[derive(Debug)]
pub struct CoordinatorMgr {
    n_reduce: i32,
    pending_tasks: ArrayQueue<Task>,
    running_tasks: Vec<Task>,
    reduce_pending_files: Vec<Vec<String>>,
}

impl CoordinatorMgr {
    /// The reduce fan-out.
    pub closed spec fn n(&self) -> int {
        self.n_reduce as int
    }

    /// The pending tasks, next to be handed out first.
    pub closed spec fn pending(&self) -> Seq<Task> {
        queue_items(self.pending_tasks)
    }

    /// The running registry, in order of assignment.
    pub closed spec fn running(&self) -> Seq<Task> {
        self.running_tasks@
    }

    /// The intermediate paths collected per reduce bin.
    pub closed spec fn bins(&self) -> Bins {
        bins_view(self.reduce_pending_files@)
    }

    /// How many tasks the pending queue can hold.
    pub closed spec fn capacity(&self) -> nat {
        queue_cap(self.pending_tasks)
    }

    pub open spec fn wf(&self) -> bool {
        &&& 1 <= self.n()
        &&& self.pending().len() <= self.capacity()
        &&& self.n() <= self.capacity()
        &&& self.bins().len() <= self.n()
        &&& forall|i: int| 0 <= i < self.bins().len() ==> (#[trigger] self.bins()[i]).len() > 0
    }

    /// Both the queue and the registry are empty.
    pub open spec fn map_done(&self) -> bool {
        self.pending().len() == 0 && self.running().len() == 0
    }

    /// Nothing is left to hand out, to wait for, or to reduce.
    pub open spec fn finished(&self) -> bool {
        self.map_done() && self.bins().len() == 0
    }

    /// The registry once the submission with key `key` has been retired.
    pub open spec fn retired(&self, key: Seq<char>) -> Seq<Task> {
        let j = first_key(self.running(), key);
        if j >= 0 { self.running().remove(j) } else { self.running() }
    }

    /// The bins once the submission has been recorded.
    pub open spec fn recorded(&self, task_id: Seq<char>, work_id: Seq<char>, files: Seq<Seq<char>>) -> Bins {
        let j = first_key(self.running(), running_key(task_id, work_id));
        if j >= 0 && self.running()[j].task_type == TaskType::MapTask && !already_recorded(self.bins(), task_id) {
            append_files(self.bins(), files, self.n())
        } else {
            self.bins()
        }
    }

    /// The barrier fires on this submission: no map work is left and some bin is filled.
    pub open spec fn fires(&self, task_id: Seq<char>, work_id: Seq<char>, files: Seq<Seq<char>>) -> bool {
        &&& self.pending().len() == 0
        &&& self.retired(running_key(task_id, work_id)).len() == 0
        &&& self.recorded(task_id, work_id, files).len() > 0
    }

    /// A coordinator with one map task per input path, each asking for `n_reduce` shards.
    /// The pending queue can hold twice the inputs and sizing hint, and one task per bin more.
    pub fn new(input_files: Vec<String>, n_reduce: i32, n_map: i32) -> (r: CoordinatorMgr)
        requires
            1 <= n_reduce,
            0 <= n_map,
            2 * (input_files@.len() + n_map) + n_reduce <= 0x1000_0000,
        ensures
            r.wf(),
            r.capacity() == 2 * (input_files@.len() + n_map) + n_reduce,
            r.is_initial(files_view(input_files@), n_reduce as int),
    {
        let task_capacity: usize = (input_files.len() + n_map as usize) * 2 + n_reduce as usize;
        let mut pending_tasks = queue_new(task_capacity);
        let mut i: usize = 0;
        while i < input_files.len()
            invariant
                i <= input_files@.len(),
                1 <= n_reduce,
                0 <= n_map,
                task_capacity == 2 * (input_files@.len() + n_map) + n_reduce,
                queue_cap(pending_tasks) == task_capacity,
                queue_items(pending_tasks).len() == i,
                forall|k: int| 0 <= k < i ==> is_map_task_for(#[trigger] queue_items(pending_tasks)[k], input_files@[k]@, n_reduce as int),
            decreases input_files.len() - i,
        {
            let mut chunk: Vec<String> = Vec::new();
            chunk.push(input_files[i].clone());
            let task = Task::new(chunk, TaskType::MapTask, n_reduce);
            proof {
                assert(files_view(task.files@) =~= seq![input_files@[i as int]@]);
            }
            let pushed = queue_push(&mut pending_tasks, task);
            assert(pushed is Ok);
            i = i + 1;
        }
        let r = CoordinatorMgr {
            n_reduce,
            pending_tasks,
            running_tasks: Vec::new(),
            reduce_pending_files: Vec::new(),
        };
        assert(r.bins() =~= Seq::<Seq<Seq<char>>>::empty());
        assert forall|i: int| 0 <= i < input_files@.len() implies is_map_task_for(#[trigger] r.pending()[i], files_view(input_files@)[i], n_reduce as int) by {
            assert(files_view(input_files@)[i] == input_files@[i]@);
        }
        r
    }

    /// Both the queue and the registry are empty.
    pub fn is_map_finish(&self) -> (r: bool)
        ensures
            r == self.map_done(),
    {
        queue_is_empty(&self.pending_tasks) && self.running_tasks.len() == 0
    }

    /// Nothing is left to hand out, to wait for, or to reduce.
    pub fn is_finish(&self) -> (r: bool)
        ensures
            r == self.finished(),
    {
        self.is_map_finish() && self.reduce_pending_files.len() == 0
    }

    /// Hands the next pending task to `work_id`, or says whether to wait or to stop.
    pub fn request_task(&mut self, work_id: String) -> (r: TaskResp)
        requires
            old(self).wf(),
        ensures
            final(self).wf(),
            old(self).request_post(*final(self), work_id, r),
    {
        match queue_pop(&mut self.pending_tasks) {
            Some(task) => {
                let mut task = task;
                let resp = task.to_distribution(work_id);
                self.running_tasks.push(task);
                TaskResp { task: Some(resp), status: RunningStatus::Running }
            },
            None => {
                let status = if self.is_finish() {
                    RunningStatus::Finish
                } else {
                    RunningStatus::Wait
                };
                TaskResp { task: None, status }
            },
        }
    }

    /// The position of the first running task registered under `key`.
    fn find_running(&self, key: &String) -> (r: Option<usize>)
        ensures
            match r {
                Some(j) => is_first_key(self.running(), key@, j as int),
                None => forall|j: int| 0 <= j < self.running().len() ==> (#[trigger] self.running()[j]).running_key_of() != key@,
            },
    {
        let mut j: usize = 0;
        while j < self.running_tasks.len()
            invariant
                j <= self.running_tasks@.len(),
                forall|k: int| 0 <= k < j ==> (#[trigger] self.running()[k]).running_key_of() != key@,
            decreases self.running_tasks.len() - j,
        {
            let id = self.running_tasks[j].get_running_id();
            if id == *key {
                return Some(j);
            }
            j = j + 1;
        }
        None
    }

    /// Appends the `i`-th file to bin `i`, for each `i` below both the file count and the fan-out.
    fn record_files(&mut self, files: &Vec<String>)
        requires
            old(self).wf(),
        ensures
            final(self).wf(),
            final(self).bins() == append_files(old(self).bins(), files_view(files@), old(self).n()),
            final(self).pending() == old(self).pending(),
            final(self).running() == old(self).running(),
            final(self).n() == old(self).n(),
            final(self).capacity() == old(self).capacity(),
    {
        let ghost old_bins = self.bins();
        let ghost fv = files_view(files@);
        let m: usize = if files.len() < self.n_reduce as usize { files.len() } else { self.n_reduce as usize };
        let mut i: usize = 0;
        while i < m
            invariant
                i <= m,
                m <= files@.len(),
                m <= self.n(),
                fv == files_view(files@),
                self.wf(),
                self.n() == old(self).n(),
                self.capacity() == old(self).capacity(),
                self.pending() == old(self).pending(),
                self.running() == old(self).running(),
                old_bins == old(self).bins(),
                self.bins().len() == if old_bins.len() < i { i as int } else { old_bins.len() as int },
                forall|k: int| 0 <= k < self.bins().len() ==> #[trigger] self.bins()[k] == {
                    let b = if k < old_bins.len() { old_bins[k] } else { Seq::<Seq<char>>::empty() };
                    if k < i { b.push(fv[k]) } else { b }
                },
            decreases m - i,
        {
            let f = files[i].clone();
            let ghost before = self.bins();
            let ghost fi = fv[i as int];
            assert(fi == f@);
            if i < self.reduce_pending_files.len() {
                let mut b: Vec<String> = Vec::new();
                self.reduce_pending_files.set_and_swap(i, &mut b);
                let ghost b0 = b@;
                assert(files_view(b0) == before[i as int]);
                b.push(f);
                assert(files_view(b@) =~= before[i as int].push(fi));
                self.reduce_pending_files.set_and_swap(i, &mut b);
                assert(self.bins() =~= before.update(i as int, before[i as int].push(fi)));
            } else {
                let mut b: Vec<String> = Vec::new();
                b.push(f);
                assert(files_view(b@) =~= seq![fi]);
                self.reduce_pending_files.push(b);
                assert(self.bins() =~= before.push(seq![fi]));
            }
            i = i + 1;
        }
        assert(self.bins() =~= append_files(old_bins, fv, old(self).n()));
    }

    /// Turns each bin into a pending reduce task and empties the bins.
    fn release_reduce_tasks(&mut self)
        requires
            old(self).wf(),
            old(self).pending().len() == 0,
        ensures
            final(self).wf(),
            final(self).bins().len() == 0,
            final(self).running() == old(self).running(),
            final(self).n() == old(self).n(),
            final(self).capacity() == old(self).capacity(),
            final(self).pending().len() == old(self).bins().len(),
            forall|i: int| 0 <= i < old(self).bins().len() ==> is_reduce_task_for(#[trigger] final(self).pending()[i], old(self).bins()[i], old(self).n()),
    {
        let ghost bins = self.bins();
        let mut i: usize = 0;
        while i < self.reduce_pending_files.len()
            invariant
                i <= self.reduce_pending_files@.len(),
                bins == old(self).bins(),
                self.bins() == bins,
                self.n() == old(self).n(),
                self.capacity() == old(self).capacity(),
                self.running() == old(self).running(),
                self.n() <= self.capacity(),
                bins.len() <= self.n(),
                self.pending().len() == i,
                forall|k: int| 0 <= k < i ==> is_reduce_task_for(#[trigger] self.pending()[k], bins[k], self.n()),
            decreases self.reduce_pending_files.len() - i,
        {
            let files = clone_files(&self.reduce_pending_files[i]);
            let task = Task::new(files, TaskType::ReduceTask, self.n_reduce);
            let pushed = queue_push(&mut self.pending_tasks, task);
            assert(pushed is Ok);
            i = i + 1;
        }
        self.reduce_pending_files = Vec::new();
        assert(self.bins() =~= Seq::<Seq<Seq<char>>>::empty());
    }

    /// Retires the running task `{task_id}_{work_id}`, records a map task's shard
    /// paths once, and opens the reduce phase when no map work is left.
    pub fn submit_task(&mut self, task_id: String, work_id: String, files: Vec<String>) -> (r: TaskResp)
        requires
            old(self).wf(),
        ensures
            final(self).wf(),
            old(self).submit_post(*final(self), task_id@, work_id@, files_view(files@)),
            r.task is None,
            r.status == RunningStatus::Wait,
    {
        let ghost key = running_key(task_id@, work_id@);
        let head = cat(task_id.as_str(), "_");
        let running_id = cat(head.as_str(), work_id.as_str());
        proof {
            reveal_strlit("_");
            assert(running_id@ == key);
        }
        let ghost pre = *self;
        match self.find_running(&running_id) {
            Some(j) => {
                proof {
                    lemma_first_key_unique(pre.running(), key, j as int);
                }
                let task = self.running_tasks.remove(j);
                if task.task_type == TaskType::MapTask && !check_task_repeat(task_id.as_str(), &self.reduce_pending_files) {
                    self.record_files(&files);
                }
            },
            None => {
                proof {
                    if exists|j: int| is_first_key(pre.running(), key, j) {
                        let j = choose|j: int| is_first_key(pre.running(), key, j);
                        assert(pre.running()[j].running_key_of() != key);
                    }
                }
            },
        }
        assert(self.running() == pre.retired(key));
        assert(self.bins() == pre.recorded(task_id@, work_id@, files_view(files@)));
        if self.is_map_finish() {
            self.release_reduce_tasks();
        }
        TaskResp { task: None, status: RunningStatus::Wait }
    }

    /// The state right after construction: one pending map task per input path.
    pub open spec fn is_initial(&self, inputs: Seq<Seq<char>>, n: int) -> bool {
        &&& self.n() == n
        &&& self.running().len() == 0
        &&& self.bins().len() == 0
        &&& self.pending().len() == inputs.len()
        &&& forall|i: int| 0 <= i < inputs.len() ==> is_map_task_for(#[trigger] self.pending()[i], inputs[i], n)
    }

    /// Only reduce work is left: every queued or running task is a reduce task and
    /// no bin is waiting.
    pub open spec fn reduce_phase(&self) -> bool {
        &&& self.bins().len() == 0
        &&& forall|i: int| 0 <= i < self.pending().len() ==> (#[trigger] self.pending()[i]).task_type == TaskType::ReduceTask
        &&& forall|i: int| 0 <= i < self.running().len() ==> (#[trigger] self.running()[i]).task_type == TaskType::ReduceTask
    }

    /// `post` is a state that a request by `work_id` answered with `r` can leave.
    pub open spec fn request_post(&self, post: CoordinatorMgr, work_id: String, r: TaskResp) -> bool {
        &&& post.n() == self.n()
        &&& post.capacity() == self.capacity()
        &&& post.bins() == self.bins()
        &&& if self.pending().len() > 0 {
            &&& post.pending() == self.pending().drop_first()
            &&& post.running() == self.running().push(assigned(self.pending()[0], work_id))
            &&& r.status == RunningStatus::Running
            &&& r.task is Some
            &&& is_dist_of(r.task->0, self.pending()[0], work_id@)
        } else {
            &&& post.pending() == self.pending()
            &&& post.running() == self.running()
            &&& r.task is None
            &&& r.status == if self.finished() { RunningStatus::Finish } else { RunningStatus::Wait }
        }
    }

    /// `post` is a state that the submission can leave.
    pub open spec fn submit_post(&self, post: CoordinatorMgr, task_id: Seq<char>, work_id: Seq<char>, files: Seq<Seq<char>>) -> bool {
        let bins = self.recorded(task_id, work_id, files);
        &&& post.n() == self.n()
        &&& post.capacity() == self.capacity()
        &&& post.running() == self.retired(running_key(task_id, work_id))
        &&& if self.pending().len() == 0 && post.running().len() == 0 {
            &&& post.bins().len() == 0
            &&& post.pending().len() == bins.len()
            &&& forall|i: int| 0 <= i < bins.len() ==> is_reduce_task_for(#[trigger] post.pending()[i], bins[i], self.n())
        } else {
            &&& post.bins() == bins
            &&& post.pending() == self.pending()
        }
    }
}

/// No two running tasks share a key.
pub open spec fn keys_unique(s: Seq<Task>) -> bool {
    forall|a: int, b: int| 0 <= a < s.len() && 0 <= b < s.len() && a != b ==> (#[trigger] s[a]).running_key_of() != (#[trigger] s[b]).running_key_of()
}

/// Every bin that the barrier turns into a task holds a path, and there are at most
/// as many bins as the fan-out.
proof fn lemma_recorded_bins(c: CoordinatorMgr, task_id: Seq<char>, work_id: Seq<char>, files: Seq<Seq<char>>)
    requires
        c.wf(),
    ensures
        c.recorded(task_id, work_id, files).len() <= c.n(),
        forall|i: int| 0 <= i < c.recorded(task_id, work_id, files).len() ==> (#[trigger] c.recorded(task_id, work_id, files)[i]).len() > 0,
{
    let b = c.recorded(task_id, work_id, files);
    assert forall|i: int| 0 <= i < b.len() implies (#[trigger] b[i]).len() > 0 by {
        if i < c.bins().len() {
            assert(c.bins()[i].len() > 0);
        }
    }
}

/// Once a request has been answered with `Finish`, the coordinator is finished and
/// unchanged, and from a finished coordinator every request is answered with `Finish`
/// and no submission changes anything.
pub proof fn law_finish_is_final(c: CoordinatorMgr, post: CoordinatorMgr, work_id: String, r: TaskResp)
    requires
        c.wf(),
        c.request_post(post, work_id, r),
        r.status == RunningStatus::Finish,
    ensures
        c.finished(),
        post.finished(),
        post.pending() == c.pending(),
        post.running() == c.running(),
        post.bins() == c.bins(),
        forall|w: String, post2: CoordinatorMgr, r2: TaskResp| #[trigger] post.request_post(post2, w, r2) ==> r2.status == RunningStatus::Finish && post2.finished(),
        forall|t: Seq<char>, w: Seq<char>, f: Seq<Seq<char>>, post2: CoordinatorMgr| #[trigger] post.submit_post(post2, t, w, f) ==> post2.finished(),
{
    assert forall|t: Seq<char>, w: Seq<char>, f: Seq<Seq<char>>, post2: CoordinatorMgr| #[trigger] post.submit_post(post2, t, w, f) implies post2.finished() by {
        let k = running_key(t, w);
        if exists|j: int| is_first_key(post.running(), k, j) {
            let j = choose|j: int| is_first_key(post.running(), k, j);
            assert(false);
        }
        assert(post.retired(k) == post.running());
        assert(post.recorded(t, w, f) == post.bins());
    }
}

/// The barrier leaves the coordinator in its reduce phase, and from the reduce phase
/// no request or submission fires the barrier again: it fires at most once.
pub proof fn law_barrier_fires_once(c: CoordinatorMgr, post: CoordinatorMgr, task_id: Seq<char>, work_id: Seq<char>, files: Seq<Seq<char>>)
    requires
        c.wf(),
        c.fires(task_id, work_id, files),
        c.submit_post(post, task_id, work_id, files),
    ensures
        post.reduce_phase(),
        forall|w: String, post2: CoordinatorMgr, r2: TaskResp| #[trigger] post.request_post(post2, w, r2) ==> post2.reduce_phase(),
        forall|t: Seq<char>, w: Seq<char>, f: Seq<Seq<char>>, post2: CoordinatorMgr| #[trigger] post.submit_post(post2, t, w, f) ==> !post.fires(t, w, f) && post2.reduce_phase(),
{
    lemma_reduce_phase_closed(post);
}

/// The reduce phase is kept by every request and submission, none of which fires the barrier.
pub proof fn lemma_reduce_phase_closed(c: CoordinatorMgr)
    requires
        c.reduce_phase(),
    ensures
        forall|w: String, post: CoordinatorMgr, r: TaskResp| #[trigger] c.request_post(post, w, r) ==> post.reduce_phase(),
        forall|t: Seq<char>, w: Seq<char>, f: Seq<Seq<char>>, post: CoordinatorMgr| #[trigger] c.submit_post(post, t, w, f) ==> !c.fires(t, w, f) && post.reduce_phase(),
{
    assert forall|w: String, post: CoordinatorMgr, r: TaskResp| #[trigger] c.request_post(post, w, r) implies post.reduce_phase() by {
        if c.pending().len() > 0 {
            assert(c.pending()[0].task_type == TaskType::ReduceTask);
            assert forall|i: int| 0 <= i < post.running().len() implies (#[trigger] post.running()[i]).task_type == TaskType::ReduceTask by {
                if i < c.running().len() {
                    assert(post.running()[i] == c.running()[i]);
                }
            }
            assert forall|i: int| 0 <= i < post.pending().len() implies (#[trigger] post.pending()[i]).task_type == TaskType::ReduceTask by {
                assert(post.pending()[i] == c.pending()[i + 1]);
            }
        }
    }
    assert forall|t: Seq<char>, w: Seq<char>, f: Seq<Seq<char>>, post: CoordinatorMgr| #[trigger] c.submit_post(post, t, w, f) implies !c.fires(t, w, f) && post.reduce_phase() by {
        let k = running_key(t, w);
        let j = first_key(c.running(), k);
        if j >= 0 {
            if exists|x: int| is_first_key(c.running(), k, x) {
                lemma_first_key_unique(c.running(), k, choose|x: int| is_first_key(c.running(), k, x));
            }
            assert(c.running()[j].task_type == TaskType::ReduceTask);
            assert forall|i: int| 0 <= i < post.running().len() implies (#[trigger] post.running()[i]).task_type == TaskType::ReduceTask by {
                if i < j {
                    assert(post.running()[i] == c.running()[i]);
                } else {
                    assert(post.running()[i] == c.running()[i + 1]);
                }
            }
        }
        assert(c.recorded(t, w, f) == c.bins());
    }
}

/// When the barrier fires, it creates one reduce task per populated bin, and no more
/// bins than the fan-out.
pub proof fn law_one_reduce_task_per_bin(c: CoordinatorMgr, post: CoordinatorMgr, task_id: Seq<char>, work_id: Seq<char>, files: Seq<Seq<char>>)
    requires
        c.wf(),
        c.fires(task_id, work_id, files),
        c.submit_post(post, task_id, work_id, files),
    ensures
        post.pending().len() == c.recorded(task_id, work_id, files).len(),
        post.pending().len() <= c.n(),
        forall|i: int| 0 <= i < post.pending().len() ==> (#[trigger] c.recorded(task_id, work_id, files)[i]).len() > 0
            && is_reduce_task_for(post.pending()[i], c.recorded(task_id, work_id, files)[i], c.n()),
{
    lemma_recorded_bins(c, task_id, work_id, files);
}

/// With a fan-out of one, the barrier creates exactly one reduce task.
pub proof fn law_single_bin(c: CoordinatorMgr, post: CoordinatorMgr, task_id: Seq<char>, work_id: Seq<char>, files: Seq<Seq<char>>)
    requires
        c.wf(),
        c.n() == 1,
        c.fires(task_id, work_id, files),
        c.submit_post(post, task_id, work_id, files),
    ensures
        post.pending().len() == 1,
        is_reduce_task_for(post.pending()[0], c.recorded(task_id, work_id, files)[0], 1),
{
    lemma_recorded_bins(c, task_id, work_id, files);
}

/// Submitting the same `(task_id, work_id)` a second time changes nothing, as long as
/// running keys are unique.
pub proof fn law_duplicate_submit(c1: CoordinatorMgr, c2: CoordinatorMgr, c3: CoordinatorMgr, task_id: Seq<char>, work_id: Seq<char>, files: Seq<Seq<char>>)
    requires
        c1.wf(),
        keys_unique(c1.running()),
        c1.submit_post(c2, task_id, work_id, files),
        c2.submit_post(c3, task_id, work_id, files),
    ensures
        c3.pending() == c2.pending(),
        c3.running() == c2.running(),
        c3.bins() == c2.bins(),
{
    let k = running_key(task_id, work_id);
    let j1 = first_key(c1.running(), k);
    if exists|x: int| is_first_key(c1.running(), k, x) {
        lemma_first_key_unique(c1.running(), k, choose|x: int| is_first_key(c1.running(), k, x));
    }
    assert forall|i: int| 0 <= i < c2.running().len() implies (#[trigger] c2.running()[i]).running_key_of() != k by {
        if j1 >= 0 {
            if i < j1 {
                assert(c2.running()[i] == c1.running()[i]);
            } else {
                assert(c2.running()[i] == c1.running()[i + 1]);
            }
        } else {
            if is_first_key(c1.running(), k, i) {
            }
            if c1.running()[i].running_key_of() == k {
                let m = choose|m: int| 0 <= m <= i && c1.running()[m].running_key_of() == k && forall|q: int| 0 <= q < m ==> (#[trigger] c1.running()[q]).running_key_of() != k;
                assert(is_first_key(c1.running(), k, m));
            }
        }
    }
    if exists|x: int| is_first_key(c2.running(), k, x) {
        let x = choose|x: int| is_first_key(c2.running(), k, x);
        assert(c2.running()[x].running_key_of() != k);
    }
    assert(c2.retired(k) == c2.running());
    assert(c2.recorded(task_id, work_id, files) == c2.bins());
    if c2.pending().len() == 0 && c2.running().len() == 0 {
        assert(c3.pending() =~= c2.pending());
    }
}

/// The identifiers of the queued tasks followed by those of the running ones.
pub open spec fn task_ids(c: CoordinatorMgr) -> Seq<Seq<char>> {
    (c.pending() + c.running()).map_values(|t: Task| t.task_id@)
}

/// No identifier occurs twice.
pub open spec fn ids_distinct(s: Seq<Seq<char>>) -> bool {
    forall|a: int, b: int| 0 <= a < s.len() && 0 <= b < s.len() && a != b ==> s[a] != s[b]
}

/// A request moves a task from the queue to the registry and copies none: when no
/// identifier stood twice among the queued and running tasks, none does afterwards,
/// and their number is unchanged.
pub proof fn law_request_moves_task(c: CoordinatorMgr, post: CoordinatorMgr, work_id: String, r: TaskResp)
    requires
        ids_distinct(task_ids(c)),
        c.request_post(post, work_id, r),
    ensures
        ids_distinct(task_ids(post)),
        task_ids(post).len() == task_ids(c).len(),
{
    let old_ids = task_ids(c);
    let new_ids = task_ids(post);
    let pl = c.pending().len() as int;
    let rl = c.running().len() as int;
    if pl > 0 {
        assert(new_ids.len() == old_ids.len());
        assert forall|x: int| 0 <= x < new_ids.len() implies #[trigger] new_ids[x] == old_ids[if x == pl + rl - 1 { 0 } else { x + 1 }] by {
            if x < pl - 1 {
                assert(new_ids[x] == post.pending()[x].task_id@);
                assert(old_ids[x + 1] == c.pending()[x + 1].task_id@);
            } else if x < pl + rl - 1 {
                assert(new_ids[x] == post.running()[x - (pl - 1)].task_id@);
                assert(old_ids[x + 1] == c.running()[x + 1 - pl].task_id@);
            } else {
                assert(new_ids[x] == post.running()[rl].task_id@);
                assert(old_ids[0] == c.pending()[0].task_id@);
            }
        }
        assert forall|a: int, b: int| 0 <= a < new_ids.len() && 0 <= b < new_ids.len() && a != b implies new_ids[a] != new_ids[b] by {
            let fa = if a == pl + rl - 1 { 0 } else { a + 1 };
            let fb = if b == pl + rl - 1 { 0 } else { b + 1 };
            assert(new_ids[a] == old_ids[fa]);
            assert(new_ids[b] == old_ids[fb]);
        }
    } else {
        assert(new_ids =~= old_ids);
    }
}

/// Once a map task's shard paths, which mention its identifier, have been recorded
/// while map work remains, no later submission under that identifier records anything.
pub proof fn law_map_results_recorded_once(c: CoordinatorMgr, c2: CoordinatorMgr, task_id: Seq<char>, work_id: Seq<char>, files: Seq<Seq<char>>)
    requires
        c.wf(),
        c.submit_post(c2, task_id, work_id, files),
        files.len() > 0,
        contains_seq(files[0], task_id),
        c.recorded(task_id, work_id, files) != c.bins(),
        c.pending().len() > 0 || c.retired(running_key(task_id, work_id)).len() > 0,
    ensures
        already_recorded(c2.bins(), task_id),
        forall|w: Seq<char>, f: Seq<Seq<char>>| #[trigger] c2.recorded(task_id, w, f) == c2.bins(),
{
    let b = c2.bins();
    assert(b == append_files(c.bins(), files, c.n()));
    assert(b[0] == (if 0 < c.bins().len() { c.bins()[0] } else { Seq::<Seq<char>>::empty() }).push(files[0]));
    let k = b[0].len() - 1;
    assert(b[0][k] == files[0]);
    assert(already_recorded(b, task_id));
}

/// `post` is a state that one request or one submission can leave.
pub open spec fn step(c: CoordinatorMgr, post: CoordinatorMgr) -> bool {
    (exists|w: String, r: TaskResp| #[trigger] c.request_post(post, w, r))
        || (exists|t: Seq<char>, w: Seq<char>, f: Seq<Seq<char>>| #[trigger] c.submit_post(post, t, w, f))
}

/// Each state of `s` is reached from the one before by one request or submission.
pub open spec fn is_run(s: Seq<CoordinatorMgr>) -> bool {
    forall|i: int| 0 <= i < s.len() - 1 ==> step(#[trigger] s[i], s[i + 1])
}

/// From a finished coordinator, every request is answered with `Finish` and every step
/// leaves it finished, with its queue, registry and bins unchanged.
pub proof fn lemma_finished_step(c: CoordinatorMgr)
    requires
        c.finished(),
    ensures
        forall|w: String, post: CoordinatorMgr, r: TaskResp| #[trigger] c.request_post(post, w, r) ==> r.status == RunningStatus::Finish,
        forall|post: CoordinatorMgr| #[trigger] step(c, post) ==> post.finished() && post.pending() == c.pending()
            && post.running() == c.running() && post.bins() == c.bins(),
{
    assert forall|post: CoordinatorMgr| #[trigger] step(c, post) implies post.finished() && post.pending() == c.pending()
        && post.running() == c.running() && post.bins() == c.bins() by {
        if exists|t: Seq<char>, w: Seq<char>, f: Seq<Seq<char>>| #[trigger] c.submit_post(post, t, w, f) {
            let (t, w, f) = choose|t: Seq<char>, w: Seq<char>, f: Seq<Seq<char>>| #[trigger] c.submit_post(post, t, w, f);
            let k = running_key(t, w);
            if exists|j: int| is_first_key(c.running(), k, j) {
                let j = choose|j: int| is_first_key(c.running(), k, j);
                assert(false);
            }
            assert(c.retired(k) == c.running());
            assert(c.recorded(t, w, f) == c.bins());
            assert(post.pending() =~= c.pending());
            assert(post.bins() =~= c.bins());
        }
    }
}

/// After a `Finish`, it stays `Finish`: along any run that starts finished, every state
/// is finished and unchanged, and every request is answered with `Finish`.
pub proof fn law_finish_along_run(s: Seq<CoordinatorMgr>)
    requires
        s.len() > 0,
        s[0].finished(),
        is_run(s),
    ensures
        forall|i: int| 0 <= i < s.len() ==> (#[trigger] s[i]).finished() && s[i].pending() == s[0].pending()
            && s[i].running() == s[0].running() && s[i].bins() == s[0].bins(),
        forall|i: int, w: String, post: CoordinatorMgr, r: TaskResp| 0 <= i < s.len() && #[trigger] s[i].request_post(post, w, r)
            ==> r.status == RunningStatus::Finish,
    decreases s.len(),
{
    if s.len() > 1 {
        let prefix = s.drop_last();
        assert(is_run(prefix)) by {
            assert forall|i: int| 0 <= i < prefix.len() - 1 implies step(#[trigger] prefix[i], prefix[i + 1]) by {
                assert(step(s[i], s[i + 1]));
            }
        }
        law_finish_along_run(prefix);
        let n = s.len() - 1;
        assert(prefix[n - 1] == s[n - 1]);
        lemma_finished_step(s[n - 1]);
        assert(step(s[n - 1], s[n]));
        assert forall|i: int| 0 <= i < s.len() implies (#[trigger] s[i]).finished() && s[i].pending() == s[0].pending()
            && s[i].running() == s[0].running() && s[i].bins() == s[0].bins() by {
            if i < n {
                assert(s[i] == prefix[i]);
            }
        }
    }
    assert forall|i: int, w: String, post: CoordinatorMgr, r: TaskResp| 0 <= i < s.len() && #[trigger] s[i].request_post(post, w, r)
        implies r.status == RunningStatus::Finish by {
        lemma_finished_step(s[i]);
    }
}

/// After the barrier, it never fires again: along any run that starts in the reduce
/// phase, every state is in the reduce phase and no submission fires the barrier.
pub proof fn law_reduce_phase_along_run(s: Seq<CoordinatorMgr>)
    requires
        s.len() > 0,
        s[0].reduce_phase(),
        is_run(s),
    ensures
        forall|i: int| 0 <= i < s.len() ==> (#[trigger] s[i]).reduce_phase(),
        forall|i: int, t: Seq<char>, w: Seq<char>, f: Seq<Seq<char>>| 0 <= i < s.len() ==> !(#[trigger] s[i].fires(t, w, f)),
    decreases s.len(),
{
    if s.len() > 1 {
        let prefix = s.drop_last();
        assert(is_run(prefix)) by {
            assert forall|i: int| 0 <= i < prefix.len() - 1 implies step(#[trigger] prefix[i], prefix[i + 1]) by {
                assert(step(s[i], s[i + 1]));
            }
        }
        law_reduce_phase_along_run(prefix);
        let n = s.len() - 1;
        assert(prefix[n - 1] == s[n - 1]);
        lemma_reduce_phase_closed(s[n - 1]);
        assert(step(s[n - 1], s[n]));
        if exists|t: Seq<char>, w: Seq<char>, f: Seq<Seq<char>>| #[trigger] s[n - 1].submit_post(s[n], t, w, f) {
            let (t, w, f) = choose|t: Seq<char>, w: Seq<char>, f: Seq<Seq<char>>| #[trigger] s[n - 1].submit_post(s[n], t, w, f);
        } else {
            let (w, r) = choose|w: String, r: TaskResp| #[trigger] s[n - 1].request_post(s[n], w, r);
        }
        assert forall|i: int| 0 <= i < s.len() implies (#[trigger] s[i]).reduce_phase() by {
            if i < n {
                assert(s[i] == prefix[i]);
            }
        }
    }
    assert forall|i: int, t: Seq<char>, w: Seq<char>, f: Seq<Seq<char>>| 0 <= i < s.len() implies !(#[trigger] s[i].fires(t, w, f)) by {
        lemma_no_fire_in_reduce_phase(s[i], t, w, f);
    }
}

/// In the reduce phase no submission fires the barrier.
proof fn lemma_no_fire_in_reduce_phase(c: CoordinatorMgr, t: Seq<char>, w: Seq<char>, f: Seq<Seq<char>>)
    requires
        c.reduce_phase(),
    ensures
        !c.fires(t, w, f),
{
    let k = running_key(t, w);
    let j = first_key(c.running(), k);
    if j >= 0 {
        if exists|x: int| is_first_key(c.running(), k, x) {
            lemma_first_key_unique(c.running(), k, choose|x: int| is_first_key(c.running(), k, x));
        }
        assert(c.running()[j].task_type == TaskType::ReduceTask);
    }
    assert(c.recorded(t, w, f) == c.bins());
}

/// A map task that reports no shard records nothing: when no bin is filled, retiring
/// the last running task with nothing queued leaves the coordinator finished.
pub proof fn law_empty_map_output_finishes(c: CoordinatorMgr, post: CoordinatorMgr, task_id: Seq<char>, work_id: Seq<char>)
    requires
        c.bins().len() == 0,
        c.pending().len() == 0,
        c.retired(running_key(task_id, work_id)).len() == 0,
        c.submit_post(post, task_id, work_id, Seq::empty()),
    ensures
        post.finished(),
{
    assert(append_files(c.bins(), Seq::empty(), c.n()) =~= Seq::<Seq<Seq<char>>>::empty());
    assert(c.recorded(task_id, work_id, Seq::empty()).len() == 0);
}

/// A coordinator built from no inputs is finished from the start.
pub proof fn law_no_inputs_finished(c: CoordinatorMgr, n: int)
    requires
        c.is_initial(Seq::empty(), n),
    ensures
        c.finished(),
{
}

/// With no inputs, the first request is answered with `Finish`.
pub proof fn law_empty_input_finishes(c: CoordinatorMgr, post: CoordinatorMgr, n: int, work_id: String, r: TaskResp)
    requires
        c.is_initial(Seq::empty(), n),
        c.request_post(post, work_id, r),
    ensures
        r.status == RunningStatus::Finish,
        r.task is None,
{
}

} // verus!
