//! The job centre's state: the jobs, the queues of waiting jobs, and the
//! jobs that workers hold.
use vstd::prelude::*;

verus! {

/// A job handed to a worker: its id, its JSON text, its priority and its
/// queue.
#[derive(Debug, PartialEq, Clone)]
pub struct JobRef(pub u32, pub String, pub u32, pub String);

#[derive(Debug, PartialEq, Eq, Clone, Copy, Structural)]
pub enum WorkerError {
    NoJob,
    InvalidRequest,
}

pub ghost struct JobView {
    pub id: u32,
    pub job: Seq<char>,
    pub priority: u32,
    pub queue: Seq<char>,
}

struct Stored {
    id: u32,
    job: String,
    priority: u32,
    queue: String,
}

impl Stored {
    spec fn view(&self) -> JobView {
        JobView { id: self.id, job: self.job@, priority: self.priority, queue: self.queue@ }
    }
}

/// A job waiting in its queue.
pub ghost struct WaitingView {
    pub priority: u32,
    pub id: u32,
    pub queue: Seq<char>,
}

struct Waiting {
    priority: u32,
    id: u32,
    queue: String,
}

impl Waiting {
    spec fn view(&self) -> WaitingView {
        WaitingView { priority: self.priority, id: self.id, queue: self.queue@ }
    }
}

pub ghost struct CentreView {
    pub next_id: u32,
    pub next_worker: u64,
    pub jobs: Seq<JobView>,
    pub waiting: Seq<WaitingView>,
    /// The jobs held, with the worker that holds each.
    pub running: Seq<(u32, u64)>,
}

/// A worker: it takes jobs and may give back only those it holds.
#[derive(Debug, PartialEq, Eq, Clone, Copy, Structural)]
pub struct Worker {
    pub id: u64,
}

pub struct JobCentre {
    next_job_id: u32,
    next_worker: u64,
    jobs: Vec<Stored>,
    waiting: Vec<Waiting>,
    running: Vec<(u32, u64)>,
}

impl View for JobCentre {
    type V = CentreView;

    closed spec fn view(&self) -> CentreView {
        CentreView {
            next_id: self.next_job_id,
            next_worker: self.next_worker,
            jobs: self.jobs@.map_values(|s: Stored| s.view()),
            waiting: self.waiting@.map_values(|w: Waiting| w.view()),
            running: self.running@,
        }
    }
}

/// The waiting job `w` is one of `jobs`, with the same priority and queue.
pub open spec fn is_known(jobs: Seq<JobView>, w: WaitingView) -> bool {
    exists|j: int|
        0 <= j < jobs.len() && #[trigger] jobs[j].id == w.id && jobs[j].priority == w.priority
            && jobs[j].queue == w.queue
}

/// The job with id `id`, if any.
pub open spec fn has_job(c: CentreView, id: u32) -> bool {
    exists|i: int| 0 <= i < c.jobs.len() && c.jobs[i].id == id
}

impl CentreView {
    /// Every waiting job is known, with its priority and queue; ids are
    /// unique among jobs and among waiting ones, and below the next id; no
    /// job both waits and is held.
    pub open spec fn wf(self) -> bool {
        &&& forall|i: int, j: int|
            0 <= i < self.jobs.len() && 0 <= j < self.jobs.len() && i != j ==> #[trigger] self.jobs[i].id
                != #[trigger] self.jobs[j].id
        &&& forall|i: int, j: int|
            0 <= i < self.waiting.len() && 0 <= j < self.waiting.len() && i != j
                ==> #[trigger] self.waiting[i].id != #[trigger] self.waiting[j].id
        &&& forall|i: int| 0 <= i < self.jobs.len() ==> #[trigger] self.jobs[i].id < self.next_id
        &&& forall|i: int| 0 <= i < self.running.len() ==> #[trigger] self.running[i].0 < self.next_id
        &&& forall|i: int| 0 <= i < self.waiting.len() ==> is_known(self.jobs, #[trigger] self.waiting[i])
        &&& forall|i: int, j: int|
            0 <= i < self.waiting.len() && 0 <= j < self.running.len() ==> #[trigger] self.waiting[i].id
                != #[trigger] self.running[j].0
        &&& forall|i: int, j: int|
            0 <= i < self.running.len() && 0 <= j < self.running.len() && i != j
                ==> #[trigger] self.running[i].0 != #[trigger] self.running[j].0
        &&& forall|i: int| 0 <= i < self.running.len() ==> has_job(self, #[trigger] self.running[i].0)
    }
}

/// The queue `q` is one of `qs`.
pub open spec fn listed(q: Seq<char>, qs: Seq<Seq<char>>) -> bool {
    exists|i: int| 0 <= i < qs.len() && qs[i] == q
}

/// `a` ranks above or with `b` in a queue: higher priority, then higher id.
pub open spec fn ranks_over(a: WaitingView, b: WaitingView) -> bool {
    a.priority > b.priority || (a.priority == b.priority && a.id >= b.id)
}

/// The waiting job at `k` is the one that taking from queues `qs` gives:
/// it has the highest priority of the listed queues; its queue is the last
/// of `qs` to hold that priority; and it ranks first in its queue.
pub open spec fn is_selected(ws: Seq<WaitingView>, qs: Seq<Seq<char>>, k: int) -> bool {
    &&& 0 <= k < ws.len()
    &&& listed(ws[k].queue, qs)
    &&& forall|j: int| 0 <= j < ws.len() && listed(ws[j].queue, qs) ==> #[trigger] ws[j].priority <= ws[k].priority
    &&& exists|c: int|
        0 <= c < qs.len() && qs[c] == ws[k].queue && forall|i: int, j: int|
            c < i < qs.len() && 0 <= j < ws.len() && #[trigger] ws[j].queue == #[trigger] qs[i]
                ==> ws[j].priority < ws[k].priority
    &&& forall|j: int| 0 <= j < ws.len() && #[trigger] ws[j].queue == ws[k].queue ==> ranks_over(ws[k], ws[j])
}

/// The text of the job with id `id`.
pub open spec fn job_text(c: CentreView, id: u32) -> Seq<char> {
    c.jobs[choose|i: int| 0 <= i < c.jobs.len() && c.jobs[i].id == id].job
}

pub open spec fn strings(v: Seq<String>) -> Seq<Seq<char>> {
    v.map_values(|s: String| s@)
}

impl Default for JobCentre {
    /// An empty centre, as `new` makes it.
    fn default() -> (r: JobCentre)
        ensures
            r@.next_id == 1,
            r@.next_worker == 0,
            r@.jobs.len() == 0,
            r@.waiting.len() == 0,
            r@.running.len() == 0,
            r@.wf(),
    {
        JobCentre::new()
    }
}

impl JobCentre {
    /// An empty centre; ids start at 1.
    pub fn new() -> (r: JobCentre)
        ensures
            r@.next_id == 1,
            r@.next_worker == 0,
            r@.jobs.len() == 0,
            r@.waiting.len() == 0,
            r@.running.len() == 0,
            r@.wf(),
    {
        JobCentre {
            next_job_id: 1,
            next_worker: 0,
            jobs: Vec::new(),
            waiting: Vec::new(),
            running: Vec::new(),
        }
    }

    /// The id the next job will get.
    pub fn next_job_id(&self) -> (r: u32)
        ensures
            r == self@.next_id,
    {
        self.next_job_id
    }

    /// The id the next worker will get.
    pub fn next_worker_id(&self) -> (r: u64)
        ensures
            r == self@.next_worker,
    {
        self.next_worker
    }

    /// A new worker.
    pub fn make_worker(&mut self) -> (r: Worker)
        requires
            old(self)@.next_worker < u64::MAX,
        ensures
            r.id == old(self)@.next_worker,
            final(self)@ == (CentreView { next_worker: (old(self)@.next_worker + 1) as u64, ..old(self)@ }),
    {
        let id = self.next_worker;
        self.next_worker = id + 1;
        Worker { id }
    }

    /// Stores `job` in `queue` with `priority`; gives its id.
    pub fn put(&mut self, queue: String, job: String, priority: u32) -> (r: u32)
        requires
            old(self)@.wf(),
            old(self)@.next_id < u32::MAX,
        ensures
            final(self)@.wf(),
            r == old(self)@.next_id,
            final(self)@ == (CentreView {
                next_id: (r + 1) as u32,
                jobs: old(self)@.jobs.push(JobView { id: r, job: job@, priority, queue: queue@ }),
                waiting: old(self)@.waiting.push(WaitingView { priority, id: r, queue: queue@ }),
                ..old(self)@
            }),
    {
        let ghost before = self@;
        let id = self.next_job_id;
        self.next_job_id = id + 1;
        let q2 = queue.clone();
        self.jobs.push(Stored { id, job, priority, queue });
        self.waiting.push(Waiting { priority, id, queue: q2 });
        proof {
            assert(self@.jobs =~= before.jobs.push(JobView { id, job: job@, priority, queue: queue@ }));
            assert(self@.waiting =~= before.waiting.push(WaitingView { priority, id, queue: queue@ }));
            let c = self@;
            assert forall|i: int| 0 <= i < c.waiting.len() implies is_known(c.jobs, #[trigger] c.waiting[i]) by {
                if i < before.waiting.len() {
                    assert(c.waiting[i] == before.waiting[i]);
                    assert(is_known(before.jobs, before.waiting[i]));
                    let j = choose|j: int|
                        0 <= j < before.jobs.len() && #[trigger] before.jobs[j].id == before.waiting[i].id
                            && before.jobs[j].priority == before.waiting[i].priority
                            && before.jobs[j].queue == before.waiting[i].queue;
                    assert(c.jobs[j] == before.jobs[j]);
                } else {
                    assert(c.jobs[before.jobs.len() as int].id == id);
                }
            }
            assert forall|i: int, j: int|
                0 <= i < c.waiting.len() && 0 <= j < c.waiting.len() && i != j implies #[trigger] c.waiting[i].id
                != #[trigger] c.waiting[j].id by {
                if i < before.waiting.len() && j < before.waiting.len() {
                    assert(before.waiting[i].id != before.waiting[j].id);
                } else if i < before.waiting.len() {
                    assert(is_known(before.jobs, before.waiting[i]));
                    let k = choose|k: int|
                        0 <= k < before.jobs.len() && #[trigger] before.jobs[k].id == before.waiting[i].id
                            && before.jobs[k].priority == before.waiting[i].priority
                            && before.jobs[k].queue == before.waiting[i].queue;
                    assert(before.jobs[k].id < before.next_id);
                } else if j < before.waiting.len() {
                    assert(is_known(before.jobs, before.waiting[j]));
                    let k = choose|k: int|
                        0 <= k < before.jobs.len() && #[trigger] before.jobs[k].id == before.waiting[j].id
                            && before.jobs[k].priority == before.waiting[j].priority
                            && before.jobs[k].queue == before.waiting[j].queue;
                    assert(before.jobs[k].id < before.next_id);
                }
            }
            assert forall|i: int, j: int|
                0 <= i < c.jobs.len() && 0 <= j < c.jobs.len() && i != j implies #[trigger] c.jobs[i].id
                != #[trigger] c.jobs[j].id by {
                if i < before.jobs.len() && j < before.jobs.len() {
                    assert(before.jobs[i].id != before.jobs[j].id);
                } else if i < before.jobs.len() {
                    assert(before.jobs[i].id < before.next_id);
                } else if j < before.jobs.len() {
                    assert(before.jobs[j].id < before.next_id);
                }
            }
            assert forall|i: int, j: int|
                0 <= i < c.waiting.len() && 0 <= j < c.running.len() implies #[trigger] c.waiting[i].id
                != #[trigger] c.running[j].0 by {
                if i < before.waiting.len() {
                    assert(before.waiting[i].id != before.running[j].0);
                } else {
                    assert(before.running[j].0 < before.next_id);
                }
            }
            assert(c.running == before.running);
            assert forall|i: int| 0 <= i < c.running.len() implies has_job(c, #[trigger] c.running[i].0) by {
                assert(has_job(before, before.running[i].0));
                let t = choose|t: int| 0 <= t < before.jobs.len() && before.jobs[t].id == before.running[i].0;
                assert(c.jobs[t] == before.jobs[t]);
            }
        }
        id
    }
}

/// The job with id `id`.
pub open spec fn job_of(c: CentreView, id: u32) -> JobView {
    c.jobs[choose|i: int| 0 <= i < c.jobs.len() && c.jobs[i].id == id]
}

/// With unique ids, the job found at `i` is the job with its id.
proof fn lemma_job_of(c: CentreView, i: int)
    requires
        c.wf(),
        0 <= i < c.jobs.len(),
    ensures
        job_of(c, c.jobs[i].id) == c.jobs[i],
        has_job(c, c.jobs[i].id),
{
    let k = choose|k: int| 0 <= k < c.jobs.len() && c.jobs[k].id == c.jobs[i].id;
    if k != i {
        assert(c.jobs[k].id != c.jobs[i].id);
    }
}

impl JobCentre {
    /// The waiting job that ranks first in queue `q`, if any waits there.
    fn top_of_queue(&self, q: &String) -> (r: Option<usize>)
        ensures
            match r {
                Some(k) => k < self@.waiting.len() && self@.waiting[k as int].queue == q@ && forall|j: int|
                    0 <= j < self@.waiting.len() && #[trigger] self@.waiting[j].queue == q@
                        ==> ranks_over(self@.waiting[k as int], self@.waiting[j]),
                None => forall|j: int|
                    0 <= j < self@.waiting.len() ==> #[trigger] self@.waiting[j].queue != q@,
            },
    {
        let ghost ws = self@.waiting;
        let mut best: Option<usize> = None;
        let mut j: usize = 0;
        while j < self.waiting.len()
            invariant
                ws == self@.waiting,
                ws.len() == self.waiting@.len(),
                j <= ws.len(),
                match best {
                    Some(k) => k < j && ws[k as int].queue == q@ && forall|t: int|
                        0 <= t < j && #[trigger] ws[t].queue == q@ ==> ranks_over(ws[k as int], ws[t]),
                    None => forall|t: int| 0 <= t < j ==> #[trigger] ws[t].queue != q@,
                },
            decreases ws.len() - j,
        {
            assert(ws[j as int] == self.waiting@[j as int].view());
            if self.waiting[j].queue == *q {
                match best {
                    None => {
                        best = Some(j);
                    },
                    Some(k) => {
                        assert(ws[k as int] == self.waiting@[k as int].view());
                        let a = &self.waiting[j];
                        let b = &self.waiting[k];
                        if a.priority > b.priority || (a.priority == b.priority && a.id >= b.id) {
                            best = Some(j);
                        }
                    },
                }
            }
            j += 1;
        }
        best
    }

    /// Finds the job with id `id`.
    fn find_job(&self, id: u32) -> (r: Option<usize>)
        ensures
            match r {
                Some(i) => i < self@.jobs.len() && self@.jobs[i as int].id == id,
                None => !has_job(self@, id),
            },
    {
        let mut i: usize = 0;
        while i < self.jobs.len()
            invariant
                i <= self@.jobs.len(),
                self@.jobs.len() == self.jobs@.len(),
                forall|t: int| 0 <= t < i ==> #[trigger] self@.jobs[t].id != id,
            decreases self@.jobs.len() - i,
        {
            assert(self@.jobs[i as int] == self.jobs@[i as int].view());
            if self.jobs[i].id == id {
                return Some(i);
            }
            i += 1;
        }
        None
    }

    /// Takes, for `worker`, the waiting job that ranks first across
    /// `queues`: the highest priority, in the last of the queues that holds
    /// it, and there the highest id.
    pub fn get(&mut self, worker: Worker, queues: &[String]) -> (r: Result<JobRef, WorkerError>)
        requires
            old(self)@.wf(),
        ensures
            final(self)@.wf(),
            (forall|k: int|
                0 <= k < old(self)@.waiting.len() ==> !listed(
                    #[trigger] old(self)@.waiting[k].queue,
                    strings(queues@),
                )) ==> r == Err::<JobRef, WorkerError>(WorkerError::NoJob) && final(self)@ == old(self)@,
            (exists|k: int|
                0 <= k < old(self)@.waiting.len() && listed(
                    #[trigger] old(self)@.waiting[k].queue,
                    strings(queues@),
                )) ==> exists|k: int|
                #![trigger is_selected(old(self)@.waiting, strings(queues@), k)]
                {
                    let c = old(self)@;
                    let w = c.waiting[k];
                    let job = job_of(c, w.id);
                    &&& is_selected(c.waiting, strings(queues@), k)
                    &&& r matches Ok(jr) && jr.0 == w.id && jr.1@ == job.job && jr.2 == job.priority
                        && jr.3@ == job.queue
                    &&& final(self)@ == (CentreView {
                        waiting: c.waiting.remove(k),
                        running: c.running.push((w.id, worker.id)),
                        ..c
                    })
                },
    {
        let ghost c = self@;
        let ghost qs = strings(queues@);
        let mut best: Option<(usize, usize)> = None;
        let mut i: usize = 0;
        while i < queues.len()
            invariant
                c == self@,
                qs == strings(queues@),
                i <= queues@.len(),
                match best {
                    None => forall|i2: int, j: int|
                        0 <= i2 < i && 0 <= j < c.waiting.len() ==> #[trigger] c.waiting[j].queue
                            != #[trigger] qs[i2],
                    Some((k, cq)) => {
                        &&& k < c.waiting.len()
                        &&& cq < i
                        &&& qs[cq as int] == c.waiting[k as int].queue
                        &&& forall|j: int|
                            0 <= j < c.waiting.len() && #[trigger] c.waiting[j].queue
                                == c.waiting[k as int].queue ==> ranks_over(c.waiting[k as int], c.waiting[j])
                        &&& forall|i2: int, j: int|
                            0 <= i2 < i && 0 <= j < c.waiting.len() && #[trigger] c.waiting[j].queue
                                == #[trigger] qs[i2] ==> c.waiting[j].priority <= c.waiting[k as int].priority
                        &&& forall|i2: int, j: int|
                            cq < i2 < i && 0 <= j < c.waiting.len() && #[trigger] c.waiting[j].queue
                                == #[trigger] qs[i2] ==> c.waiting[j].priority < c.waiting[k as int].priority
                    },
                },
            decreases queues@.len() - i,
        {
            assert(qs[i as int] == queues@[i as int]@);
            match self.top_of_queue(&queues[i]) {
                None => {},
                Some(k2) => {
                    assert(c.waiting[k2 as int] == self.waiting@[k2 as int].view());
                    let replace = match best {
                        None => true,
                        Some((k, _)) => {
                            assert(c.waiting[k as int] == self.waiting@[k as int].view());
                            self.waiting[k2].priority >= self.waiting[k].priority
                        },
                    };
                    if replace {
                        best = Some((k2, i));
                    }
                },
            }
            i += 1;
        }
        match best {
            None => {
                proof {
                    assert forall|k: int| 0 <= k < c.waiting.len() implies !listed(
                        #[trigger] c.waiting[k].queue,
                        qs,
                    ) by {
                        if listed(c.waiting[k].queue, qs) {
                            let i2 = choose|i2: int| 0 <= i2 < qs.len() && qs[i2] == c.waiting[k].queue;
                            assert(c.waiting[k].queue != qs[i2]);
                        }
                    }
                }
                Err(WorkerError::NoJob)
            },
            Some((k, cq)) => {
                proof {
                    assert(listed(c.waiting[k as int].queue, qs));
                    assert forall|j: int|
                        0 <= j < c.waiting.len() && listed(c.waiting[j].queue, qs) implies #[trigger] c.waiting[j].priority
                        <= c.waiting[k as int].priority by {
                        let i2 = choose|i2: int| 0 <= i2 < qs.len() && qs[i2] == c.waiting[j].queue;
                        assert(c.waiting[j].queue == qs[i2]);
                    }
                    assert(is_selected(c.waiting, qs, k as int));
                }
                let entry = self.waiting.remove(k);
                let id = entry.id;
                proof {
                    assert(entry.view() == c.waiting[k as int]);
                    let w = c.waiting[k as int];
                    assert(is_known(c.jobs, w));
                    let t = choose|t: int|
                        0 <= t < c.jobs.len() && #[trigger] c.jobs[t].id == w.id && c.jobs[t].priority
                            == w.priority && c.jobs[t].queue == w.queue;
                    lemma_job_of(c, t);
                }
                let t = match self.find_job(id) {
                    Some(t) => t,
                    None => {
                        proof {
                            assert(has_job(c, id));
                        }
                        return Err(WorkerError::NoJob);
                    },
                };
                proof {
                    lemma_job_of(c, t as int);
                    assert(self@.jobs[t as int] == self.jobs@[t as int].view());
                }
                let stored = &self.jobs[t];
                let jr = JobRef(id, stored.job.clone(), stored.priority, stored.queue.clone());
                self.running.push((id, worker.id));
                proof {
                    let after = self@;
                    assert(after.waiting =~= c.waiting.remove(k as int));
                    assert(after.running =~= c.running.push((id, worker.id)));
                    assert(after == (CentreView {
                        waiting: c.waiting.remove(k as int),
                        running: c.running.push((id, worker.id)),
                        ..c
                    }));
                    lemma_get_keeps_wf(c, k as int, worker.id);
                }
                Ok(jr)
            },
        }
    }
}

/// Taking a waiting job keeps the centre's invariant.
proof fn lemma_get_keeps_wf(c: CentreView, k: int, worker: u64)
    requires
        c.wf(),
        0 <= k < c.waiting.len(),
    ensures
        (CentreView {
            waiting: c.waiting.remove(k),
            running: c.running.push((c.waiting[k].id, worker)),
            ..c
        }).wf(),
{
    let w = c.waiting[k];
    let d = CentreView {
        waiting: c.waiting.remove(k),
        running: c.running.push((w.id, worker)),
        ..c
    };
    assert forall|i: int| 0 <= i < d.waiting.len() implies is_known(d.jobs, #[trigger] d.waiting[i]) by {
        let i0 = if i < k {
            i
        } else {
            i + 1
        };
        assert(d.waiting[i] == c.waiting[i0]);
        assert(is_known(c.jobs, c.waiting[i0]));
    }
    assert forall|i: int, j: int|
        0 <= i < d.waiting.len() && 0 <= j < d.waiting.len() && i != j implies #[trigger] d.waiting[i].id
        != #[trigger] d.waiting[j].id by {
        let i0 = if i < k {
            i
        } else {
            i + 1
        };
        let j0 = if j < k {
            j
        } else {
            j + 1
        };
        assert(c.waiting[i0].id != c.waiting[j0].id);
    }
    assert forall|i: int, j: int|
        0 <= i < d.waiting.len() && 0 <= j < d.running.len() implies #[trigger] d.waiting[i].id
        != #[trigger] d.running[j].0 by {
        let i0 = if i < k {
            i
        } else {
            i + 1
        };
        if j < c.running.len() {
            assert(c.waiting[i0].id != c.running[j].0);
        } else {
            assert(c.waiting[i0].id != c.waiting[k].id);
        }
    }
    assert forall|i: int, j: int|
        0 <= i < d.running.len() && 0 <= j < d.running.len() && i != j implies #[trigger] d.running[i].0
        != #[trigger] d.running[j].0 by {
        if i < c.running.len() && j < c.running.len() {
            assert(c.running[i].0 != c.running[j].0);
        } else if i < c.running.len() {
            assert(c.waiting[k].id != c.running[i].0);
        } else if j < c.running.len() {
            assert(c.waiting[k].id != c.running[j].0);
        }
    }
    assert forall|i: int| 0 <= i < d.running.len() implies #[trigger] d.running[i].0 < d.next_id && has_job(
        d,
        d.running[i].0,
    ) by {
        if i < c.running.len() {
            assert(c.running[i].0 < c.next_id && has_job(c, c.running[i].0));
            assert(d.running[i] == c.running[i]);
            let t = choose|t: int| 0 <= t < c.jobs.len() && c.jobs[t].id == c.running[i].0;
            assert(d.jobs[t].id == d.running[i].0);
        } else {
            assert(is_known(c.jobs, w));
            let t = choose|t: int|
                0 <= t < c.jobs.len() && #[trigger] c.jobs[t].id == w.id && c.jobs[t].priority
                    == w.priority && c.jobs[t].queue == w.queue;
            assert(c.jobs[t].id < c.next_id);
            assert(d.jobs[t].id == d.running[i].0);
        }
    }
}

/// The waiting jobs other than `id`, in order.
pub open spec fn waiting_without(ws: Seq<WaitingView>, id: u32) -> Seq<WaitingView>
    decreases ws.len(),
{
    if ws.len() == 0 {
        ws
    } else {
        let rest = waiting_without(ws.drop_last(), id);
        if ws.last().id == id {
            rest
        } else {
            rest.push(ws.last())
        }
    }
}

/// The held jobs other than `id`, in order.
pub open spec fn running_without(rs: Seq<(u32, u64)>, id: u32) -> Seq<(u32, u64)>
    decreases rs.len(),
{
    if rs.len() == 0 {
        rs
    } else {
        let rest = running_without(rs.drop_last(), id);
        if rs.last().0 == id {
            rest
        } else {
            rest.push(rs.last())
        }
    }
}

/// Every element of `r` is an element of `s`.
pub open spec fn drawn_from<A>(r: Seq<A>, s: Seq<A>) -> bool {
    forall|k: int| 0 <= k < r.len() ==> exists|i: int| 0 <= i < s.len() && #[trigger] s[i] == #[trigger] r[k]
}

pub open spec fn waiting_ids_unique(ws: Seq<WaitingView>) -> bool {
    forall|i: int, j: int| 0 <= i < ws.len() && 0 <= j < ws.len() && i != j ==> #[trigger] ws[i].id != #[trigger] ws[j].id
}

pub open spec fn running_ids_unique(rs: Seq<(u32, u64)>) -> bool {
    forall|i: int, j: int| 0 <= i < rs.len() && 0 <= j < rs.len() && i != j ==> #[trigger] rs[i].0 != #[trigger] rs[j].0
}

proof fn lemma_waiting_without(ws: Seq<WaitingView>, id: u32)
    requires
        waiting_ids_unique(ws),
    ensures
        drawn_from(waiting_without(ws, id), ws),
        forall|k: int| 0 <= k < waiting_without(ws, id).len() ==> #[trigger] waiting_without(ws, id)[k].id != id,
        waiting_ids_unique(waiting_without(ws, id)),
    decreases ws.len(),
{
    if ws.len() > 0 {
        let d = ws.drop_last();
        lemma_waiting_without(d, id);
        let rest = waiting_without(d, id);
        let r = waiting_without(ws, id);
        assert forall|k: int| 0 <= k < r.len() implies exists|i: int| 0 <= i < ws.len() && #[trigger] ws[i] == #[trigger] r[k] by {
            if k < rest.len() {
                let i = choose|i: int| 0 <= i < d.len() && #[trigger] d[i] == #[trigger] rest[k];
                assert(ws[i] == d[i]);
            } else {
                assert(ws[ws.len() - 1] == r[k]);
            }
        }
        assert forall|i: int, j: int| 0 <= i < r.len() && 0 <= j < r.len() && i != j implies #[trigger] r[i].id
            != #[trigger] r[j].id by {
            if i < rest.len() && j < rest.len() {
            } else if i < rest.len() {
                let a = choose|a: int| 0 <= a < d.len() && #[trigger] d[a] == #[trigger] rest[i];
                assert(ws[a] == d[a]);
                assert(ws[a].id != ws[ws.len() - 1].id);
            } else if j < rest.len() {
                let a = choose|a: int| 0 <= a < d.len() && #[trigger] d[a] == #[trigger] rest[j];
                assert(ws[a] == d[a]);
                assert(ws[a].id != ws[ws.len() - 1].id);
            }
        }
    }
}

proof fn lemma_running_without(rs: Seq<(u32, u64)>, id: u32)
    requires
        running_ids_unique(rs),
    ensures
        drawn_from(running_without(rs, id), rs),
        forall|k: int| 0 <= k < running_without(rs, id).len() ==> #[trigger] running_without(rs, id)[k].0 != id,
        running_ids_unique(running_without(rs, id)),
    decreases rs.len(),
{
    if rs.len() > 0 {
        let d = rs.drop_last();
        lemma_running_without(d, id);
        let rest = running_without(d, id);
        let r = running_without(rs, id);
        assert forall|k: int| 0 <= k < r.len() implies exists|i: int| 0 <= i < rs.len() && #[trigger] rs[i] == #[trigger] r[k] by {
            if k < rest.len() {
                let i = choose|i: int| 0 <= i < d.len() && #[trigger] d[i] == #[trigger] rest[k];
                assert(rs[i] == d[i]);
            } else {
                assert(rs[rs.len() - 1] == r[k]);
            }
        }
        assert forall|i: int, j: int| 0 <= i < r.len() && 0 <= j < r.len() && i != j implies #[trigger] r[i].0
            != #[trigger] r[j].0 by {
            if i < rest.len() && j < rest.len() {
            } else if i < rest.len() {
                let a = choose|a: int| 0 <= a < d.len() && #[trigger] d[a] == #[trigger] rest[i];
                assert(rs[a] == d[a]);
                assert(rs[a].0 != rs[rs.len() - 1].0);
            } else if j < rest.len() {
                let a = choose|a: int| 0 <= a < d.len() && #[trigger] d[a] == #[trigger] rest[j];
                assert(rs[a] == d[a]);
                assert(rs[a].0 != rs[rs.len() - 1].0);
            }
        }
    }
}

fn drop_waiting(ws: &Vec<Waiting>, id: u32) -> (r: Vec<Waiting>)
    ensures
        r@.map_values(|w: Waiting| w.view()) == waiting_without(ws@.map_values(|w: Waiting| w.view()), id),
{
    let ghost all = ws@.map_values(|w: Waiting| w.view());
    let mut out: Vec<Waiting> = Vec::new();
    let mut i: usize = 0;
    while i < ws.len()
        invariant
            i <= ws@.len(),
            all == ws@.map_values(|w: Waiting| w.view()),
            out@.map_values(|w: Waiting| w.view()) == waiting_without(all.take(i as int), id),
        decreases ws@.len() - i,
    {
        assert(all.take(i + 1).drop_last() =~= all.take(i as int));
        assert(all[i as int] == ws@[i as int].view());
        let w = &ws[i];
        if w.id != id {
            let ghost before = out@.map_values(|w: Waiting| w.view());
            out.push(Waiting { priority: w.priority, id: w.id, queue: w.queue.clone() });
            assert(out@.map_values(|w: Waiting| w.view()) =~= before.push(all[i as int]));
        }
        i += 1;
    }
    assert(all.take(ws@.len() as int) =~= all);
    out
}

fn drop_running(rs: &Vec<(u32, u64)>, id: u32) -> (r: Vec<(u32, u64)>)
    ensures
        r@ == running_without(rs@, id),
{
    let mut out: Vec<(u32, u64)> = Vec::new();
    let mut i: usize = 0;
    while i < rs.len()
        invariant
            i <= rs@.len(),
            out@ == running_without(rs@.take(i as int), id),
        decreases rs@.len() - i,
    {
        assert(rs@.take(i + 1).drop_last() =~= rs@.take(i as int));
        let e = rs[i];
        if e.0 != id {
            out.push(e);
        }
        i += 1;
    }
    assert(rs@.take(rs@.len() as int) =~= rs@);
    out
}

impl JobCentre {
    /// Deletes the job `id`, waiting or held, from any client.
    pub fn delete(&mut self, id: u32) -> (r: Result<(), WorkerError>)
        requires
            old(self)@.wf(),
        ensures
            final(self)@.wf(),
            !has_job(old(self)@, id) ==> r == Err::<(), WorkerError>(WorkerError::NoJob)
                && final(self)@ == old(self)@,
            has_job(old(self)@, id) ==> r is Ok && exists|t: int|
                0 <= t < old(self)@.jobs.len() && #[trigger] old(self)@.jobs[t].id == id && final(self)@
                    == (CentreView {
                    jobs: old(self)@.jobs.remove(t),
                    waiting: waiting_without(old(self)@.waiting, id),
                    running: running_without(old(self)@.running, id),
                    ..old(self)@
                }),
    {
        let ghost c = self@;
        let t = match self.find_job(id) {
            None => {
                return Err(WorkerError::NoJob);
            },
            Some(t) => t,
        };
        self.jobs.remove(t);
        let ws = drop_waiting(&self.waiting, id);
        self.waiting = ws;
        let rs = drop_running(&self.running, id);
        self.running = rs;
        proof {
            assert(self@.jobs =~= c.jobs.remove(t as int));
            assert(self@ == (CentreView {
                jobs: c.jobs.remove(t as int),
                waiting: waiting_without(c.waiting, id),
                running: running_without(c.running, id),
                ..c
            }));
            lemma_delete_keeps_wf(c, t as int, id);
        }
        Ok(())
    }
}

/// Deleting a job keeps the centre's invariant.
proof fn lemma_delete_keeps_wf(c: CentreView, t: int, id: u32)
    requires
        c.wf(),
        0 <= t < c.jobs.len(),
        c.jobs[t].id == id,
    ensures
        (CentreView {
            jobs: c.jobs.remove(t),
            waiting: waiting_without(c.waiting, id),
            running: running_without(c.running, id),
            ..c
        }).wf(),
{
    let d = CentreView {
        jobs: c.jobs.remove(t),
        waiting: waiting_without(c.waiting, id),
        running: running_without(c.running, id),
        ..c
    };
    lemma_waiting_without(c.waiting, id);
    lemma_running_without(c.running, id);
    assert forall|i: int, j: int| 0 <= i < d.jobs.len() && 0 <= j < d.jobs.len() && i != j implies #[trigger] d.jobs[i].id
        != #[trigger] d.jobs[j].id by {
        let i0 = if i < t {
            i
        } else {
            i + 1
        };
        let j0 = if j < t {
            j
        } else {
            j + 1
        };
        assert(c.jobs[i0].id != c.jobs[j0].id);
    }
    assert forall|i: int| 0 <= i < d.jobs.len() implies #[trigger] d.jobs[i].id < d.next_id by {
        let i0 = if i < t {
            i
        } else {
            i + 1
        };
        assert(d.jobs[i] == c.jobs[i0]);
    }
    assert forall|i: int| 0 <= i < d.waiting.len() implies is_known(d.jobs, #[trigger] d.waiting[i]) by {
        let w = d.waiting[i];
        let a = choose|a: int| 0 <= a < c.waiting.len() && #[trigger] c.waiting[a] == #[trigger] d.waiting[i];
        assert(is_known(c.jobs, c.waiting[a]));
        let j = choose|j: int|
            0 <= j < c.jobs.len() && #[trigger] c.jobs[j].id == w.id && c.jobs[j].priority == w.priority
                && c.jobs[j].queue == w.queue;
        assert(w.id != id);
        assert(j != t);
        let j1 = if j < t {
            j
        } else {
            j - 1
        };
        assert(d.jobs[j1] == c.jobs[j]);
    }
    assert forall|i: int, j: int|
        0 <= i < d.waiting.len() && 0 <= j < d.running.len() implies #[trigger] d.waiting[i].id
        != #[trigger] d.running[j].0 by {
        let a = choose|a: int| 0 <= a < c.waiting.len() && #[trigger] c.waiting[a] == #[trigger] d.waiting[i];
        let b = choose|b: int| 0 <= b < c.running.len() && #[trigger] c.running[b] == #[trigger] d.running[j];
        assert(c.waiting[a].id != c.running[b].0);
    }
    assert forall|i: int| 0 <= i < d.running.len() implies #[trigger] d.running[i].0 < d.next_id && has_job(
        d,
        d.running[i].0,
    ) by {
        let b = choose|b: int| 0 <= b < c.running.len() && #[trigger] c.running[b] == #[trigger] d.running[i];
        assert(c.running[b].0 < c.next_id);
        assert(has_job(c, c.running[b].0));
        let j = choose|j: int| 0 <= j < c.jobs.len() && c.jobs[j].id == c.running[b].0;
        assert(j != t);
        let j1 = if j < t {
            j
        } else {
            j - 1
        };
        assert(d.jobs[j1] == c.jobs[j]);
    }
}

/// The worker holds the job `id`.
pub open spec fn holds(c: CentreView, worker: u64, id: u32) -> bool {
    exists|k: int| 0 <= k < c.running.len() && #[trigger] c.running[k] == (id, worker)
}

/// The job `id` back in its queue, with its priority.
pub open spec fn requeued(c: CentreView, id: u32) -> WaitingView {
    let job = job_of(c, id);
    WaitingView { priority: job.priority, id, queue: job.queue }
}

impl JobCentre {
    /// Gives back the job `id`: only the worker that holds it may.
    pub fn abort(&mut self, worker: Worker, id: u32) -> (r: Result<(), WorkerError>)
        requires
            old(self)@.wf(),
        ensures
            final(self)@.wf(),
            !holds(old(self)@, worker.id, id) ==> r == Err::<(), WorkerError>(
                WorkerError::InvalidRequest,
            ) && final(self)@ == old(self)@,
            holds(old(self)@, worker.id, id) ==> r is Ok && final(self)@ == (CentreView {
                waiting: old(self)@.waiting.push(requeued(old(self)@, id)),
                running: running_without(old(self)@.running, id),
                ..old(self)@
            }),
    {
        let ghost c = self@;
        let mut k: usize = 0;
        while k < self.running.len()
            invariant
                c == self@,
                k <= c.running.len(),
                forall|j: int| 0 <= j < k ==> #[trigger] c.running[j] != (id, worker.id),
            ensures
                c == self@,
                k <= c.running.len(),
                forall|j: int| 0 <= j < k ==> #[trigger] c.running[j] != (id, worker.id),
                k < c.running.len() ==> c.running[k as int] == (id, worker.id),
            decreases c.running.len() - k,
        {
            if self.running[k].0 == id && self.running[k].1 == worker.id {
                break;
            }
            k += 1;
        }
        if k == self.running.len() {
            return Err(WorkerError::InvalidRequest);
        }
        assert(c.running[k as int] == (id, worker.id));
        proof {
            assert(has_job(c, c.running[k as int].0));
        }
        let t = match self.find_job(id) {
            Some(t) => t,
            None => {
                return Err(WorkerError::InvalidRequest);
            },
        };
        proof {
            lemma_job_of(c, t as int);
            assert(c.jobs[t as int] == self.jobs@[t as int].view());
        }
        let priority = self.jobs[t].priority;
        let queue = self.jobs[t].queue.clone();
        let rs = drop_running(&self.running, id);
        self.running = rs;
        self.waiting.push(Waiting { priority, id, queue });
        proof {
            assert(self@.waiting =~= c.waiting.push(requeued(c, id)));
            lemma_abort_keeps_wf(c, k as int, id);
        }
        Ok(())
    }
}

/// Giving back a held job keeps the centre's invariant.
proof fn lemma_abort_keeps_wf(c: CentreView, k: int, id: u32)
    requires
        c.wf(),
        0 <= k < c.running.len(),
        c.running[k].0 == id,
    ensures
        (CentreView {
            waiting: c.waiting.push(requeued(c, id)),
            running: running_without(c.running, id),
            ..c
        }).wf(),
{
    let d = CentreView {
        waiting: c.waiting.push(requeued(c, id)),
        running: running_without(c.running, id),
        ..c
    };
    lemma_running_without(c.running, id);
    assert(has_job(c, id));
    let t = choose|t: int| 0 <= t < c.jobs.len() && c.jobs[t].id == id;
    lemma_job_of(c, t);
    assert forall|i: int| 0 <= i < d.waiting.len() implies is_known(d.jobs, #[trigger] d.waiting[i]) by {
        if i < c.waiting.len() {
            assert(d.waiting[i] == c.waiting[i]);
        } else {
            assert(d.jobs[t].id == id);
        }
    }
    assert forall|i: int, j: int| 0 <= i < d.waiting.len() && 0 <= j < d.waiting.len() && i != j implies #[trigger] d.waiting[i].id
        != #[trigger] d.waiting[j].id by {
        if i < c.waiting.len() && j < c.waiting.len() {
            assert(c.waiting[i].id != c.waiting[j].id);
        } else if i < c.waiting.len() {
            assert(c.waiting[i].id != c.running[k].0);
        } else if j < c.waiting.len() {
            assert(c.waiting[j].id != c.running[k].0);
        }
    }
    assert forall|i: int, j: int|
        0 <= i < d.waiting.len() && 0 <= j < d.running.len() implies #[trigger] d.waiting[i].id
        != #[trigger] d.running[j].0 by {
        let b = choose|b: int| 0 <= b < c.running.len() && #[trigger] c.running[b] == #[trigger] d.running[j];
        if i < c.waiting.len() {
            assert(d.waiting[i] == c.waiting[i]);
            assert(c.waiting[i].id != c.running[b].0);
        }
    }
    assert forall|i: int| 0 <= i < d.running.len() implies #[trigger] d.running[i].0 < d.next_id && has_job(
        d,
        d.running[i].0,
    ) by {
        let b = choose|b: int| 0 <= b < c.running.len() && #[trigger] c.running[b] == #[trigger] d.running[i];
        assert(c.running[b].0 < c.next_id);
        assert(has_job(c, c.running[b].0));
    }
}

/// The held jobs of workers other than `w`, in order.
pub open spec fn held_by_others(rs: Seq<(u32, u64)>, w: u64) -> Seq<(u32, u64)>
    decreases rs.len(),
{
    if rs.len() == 0 {
        rs
    } else {
        let rest = held_by_others(rs.drop_last(), w);
        if rs.last().1 == w {
            rest
        } else {
            rest.push(rs.last())
        }
    }
}

/// The jobs that `w` holds, back in their queues, in the order taken.
pub open spec fn given_back(c: CentreView, rs: Seq<(u32, u64)>, w: u64) -> Seq<WaitingView>
    decreases rs.len(),
{
    if rs.len() == 0 {
        Seq::empty()
    } else {
        let rest = given_back(c, rs.drop_last(), w);
        if rs.last().1 == w {
            rest.push(requeued(c, rs.last().0))
        } else {
            rest
        }
    }
}

/// `x` is one of the jobs that `w` holds in `rs`, back in its queue.
pub open spec fn returned_from(c: CentreView, rs: Seq<(u32, u64)>, w: u64, x: WaitingView) -> bool {
    exists|i: int| 0 <= i < rs.len() && rs[i].1 == w && x == requeued(c, #[trigger] rs[i].0)
}

proof fn lemma_given_back(c: CentreView, rs: Seq<(u32, u64)>, w: u64)
    requires
        running_ids_unique(rs),
    ensures
        forall|k: int|
            0 <= k < given_back(c, rs, w).len() ==> returned_from(c, rs, w, #[trigger] given_back(c, rs, w)[k]),
        waiting_ids_unique(given_back(c, rs, w)),
        drawn_from(held_by_others(rs, w), rs),
        forall|k: int|
            0 <= k < held_by_others(rs, w).len() ==> #[trigger] held_by_others(rs, w)[k].1 != w,
        running_ids_unique(held_by_others(rs, w)),
    decreases rs.len(),
{
    if rs.len() > 0 {
        let d = rs.drop_last();
        lemma_given_back(c, d, w);
        let g0 = given_back(c, d, w);
        let g = given_back(c, rs, w);
        let h0 = held_by_others(d, w);
        let h = held_by_others(rs, w);
        let n = rs.len() - 1;
        assert forall|k: int| 0 <= k < g.len() implies returned_from(c, rs, w, #[trigger] g[k]) by {
            if k < g0.len() {
                assert(returned_from(c, d, w, g0[k]));
                let i = choose|i: int| 0 <= i < d.len() && d[i].1 == w && g0[k] == requeued(c, #[trigger] d[i].0);
                assert(rs[i] == d[i]);
                assert(g[k] == g0[k]);
            } else {
                assert(g[k] == requeued(c, rs[n].0));
            }
        }
        assert forall|i: int, j: int| 0 <= i < g.len() && 0 <= j < g.len() && i != j implies #[trigger] g[i].id
            != #[trigger] g[j].id by {
            if i < g0.len() && j < g0.len() {
            } else if i < g0.len() {
                assert(returned_from(c, d, w, g0[i]));
                let a = choose|a: int| 0 <= a < d.len() && d[a].1 == w && g0[i] == requeued(c, #[trigger] d[a].0);
                assert(rs[a] == d[a]);
                assert(rs[a].0 != rs[n].0);
            } else if j < g0.len() {
                assert(returned_from(c, d, w, g0[j]));
                let a = choose|a: int| 0 <= a < d.len() && d[a].1 == w && g0[j] == requeued(c, #[trigger] d[a].0);
                assert(rs[a] == d[a]);
                assert(rs[a].0 != rs[n].0);
            }
        }
        assert forall|k: int| 0 <= k < h.len() implies exists|i: int| 0 <= i < rs.len() && #[trigger] rs[i]
            == #[trigger] h[k] by {
            if k < h0.len() {
                let i = choose|i: int| 0 <= i < d.len() && #[trigger] d[i] == #[trigger] h0[k];
                assert(rs[i] == d[i]);
            } else {
                assert(rs[n] == h[k]);
            }
        }
        assert forall|i: int, j: int| 0 <= i < h.len() && 0 <= j < h.len() && i != j implies #[trigger] h[i].0
            != #[trigger] h[j].0 by {
            if i < h0.len() && j < h0.len() {
            } else if i < h0.len() {
                let a = choose|a: int| 0 <= a < d.len() && #[trigger] d[a] == #[trigger] h0[i];
                assert(rs[a] == d[a]);
                assert(rs[a].0 != rs[n].0);
            } else if j < h0.len() {
                let a = choose|a: int| 0 <= a < d.len() && #[trigger] d[a] == #[trigger] h0[j];
                assert(rs[a] == d[a]);
                assert(rs[a].0 != rs[n].0);
            }
        }
    }
}

/// Giving back everything a worker holds keeps the centre's invariant.
proof fn lemma_remove_worker_keeps_wf(c: CentreView, w: u64)
    requires
        c.wf(),
    ensures
        (CentreView {
            waiting: c.waiting + given_back(c, c.running, w),
            running: held_by_others(c.running, w),
            ..c
        }).wf(),
{
    let g = given_back(c, c.running, w);
    let d = CentreView { waiting: c.waiting + g, running: held_by_others(c.running, w), ..c };
    lemma_given_back(c, c.running, w);
    let n = c.waiting.len();
    assert forall|i: int| 0 <= i < d.waiting.len() implies is_known(d.jobs, #[trigger] d.waiting[i]) by {
        if i < n {
            assert(d.waiting[i] == c.waiting[i]);
        } else {
            assert(returned_from(c, c.running, w, g[i - n]));
            let a = choose|a: int|
                0 <= a < c.running.len() && c.running[a].1 == w && g[i - n] == requeued(c, #[trigger] c.running[a].0);
            assert(has_job(c, c.running[a].0));
            let t = choose|t: int| 0 <= t < c.jobs.len() && c.jobs[t].id == c.running[a].0;
            lemma_job_of(c, t);
            assert(d.jobs[t].id == d.waiting[i].id);
        }
    }
    assert forall|i: int, j: int| 0 <= i < d.waiting.len() && 0 <= j < d.waiting.len() && i != j implies #[trigger] d.waiting[i].id
        != #[trigger] d.waiting[j].id by {
        if i < n && j < n {
            assert(c.waiting[i].id != c.waiting[j].id);
        } else if i >= n && j >= n {
            assert(g[i - n].id != g[j - n].id);
        } else if i < n {
            assert(returned_from(c, c.running, w, g[j - n]));
            let a = choose|a: int|
                0 <= a < c.running.len() && c.running[a].1 == w && g[j - n] == requeued(c, #[trigger] c.running[a].0);
            assert(c.waiting[i].id != c.running[a].0);
        } else {
            assert(returned_from(c, c.running, w, g[i - n]));
            let a = choose|a: int|
                0 <= a < c.running.len() && c.running[a].1 == w && g[i - n] == requeued(c, #[trigger] c.running[a].0);
            assert(c.waiting[j].id != c.running[a].0);
        }
    }
    assert forall|i: int, j: int|
        0 <= i < d.waiting.len() && 0 <= j < d.running.len() implies #[trigger] d.waiting[i].id
        != #[trigger] d.running[j].0 by {
        let b = choose|b: int| 0 <= b < c.running.len() && #[trigger] c.running[b] == #[trigger] d.running[j];
        assert(d.running[j].1 != w);
        if i < n {
            assert(c.waiting[i].id != c.running[b].0);
        } else {
            assert(returned_from(c, c.running, w, g[i - n]));
            let a = choose|a: int|
                0 <= a < c.running.len() && c.running[a].1 == w && g[i - n] == requeued(c, #[trigger] c.running[a].0);
            assert(a != b);
            assert(c.running[a].0 != c.running[b].0);
        }
    }
    assert forall|i: int| 0 <= i < d.running.len() implies #[trigger] d.running[i].0 < d.next_id && has_job(
        d,
        d.running[i].0,
    ) by {
        let b = choose|b: int| 0 <= b < c.running.len() && #[trigger] c.running[b] == #[trigger] d.running[i];
        assert(c.running[b].0 < c.next_id);
        assert(has_job(c, c.running[b].0));
    }
}

impl JobCentre {
    /// Gives back every job that `worker` holds, as a departing worker does.
    pub fn remove_worker(&mut self, worker: Worker)
        requires
            old(self)@.wf(),
        ensures
            final(self)@.wf(),
            final(self)@ == (CentreView {
                waiting: old(self)@.waiting + given_back(old(self)@, old(self)@.running, worker.id),
                running: held_by_others(old(self)@.running, worker.id),
                ..old(self)@
            }),
    {
        let ghost c = self@;
        let mut kept: Vec<(u32, u64)> = Vec::new();
        let mut i: usize = 0;
        let n = self.running.len();
        assert(c.waiting + given_back(c, c.running.take(0), worker.id) =~= c.waiting);
        while i < n
            invariant
                n == c.running.len(),
                i <= n,
                self@.running == c.running,
                self@.jobs == c.jobs,
                self@.next_id == c.next_id,
                self@.next_worker == c.next_worker,
                self@.waiting == c.waiting + given_back(c, c.running.take(i as int), worker.id),
                kept@ == held_by_others(c.running.take(i as int), worker.id),
                c.wf(),
            decreases n - i,
        {
            assert(c.running.take(i + 1).drop_last() =~= c.running.take(i as int));
            let e = self.running[i];
            if e.1 == worker.id {
                proof {
                    assert(has_job(c, c.running[i as int].0));
                }
                match self.find_job(e.0) {
                    Some(t) => {
                        proof {
                            lemma_job_of(c, t as int);
                            assert(c.jobs[t as int] == self.jobs@[t as int].view());
                        }
                        let priority = self.jobs[t].priority;
                        let queue = self.jobs[t].queue.clone();
                        let ghost before = self@.waiting;
                        self.waiting.push(Waiting { priority, id: e.0, queue });
                        assert(self@.waiting =~= before.push(requeued(c, e.0)));
                        assert(c.waiting + given_back(c, c.running.take(i + 1), worker.id) =~= before.push(
                            requeued(c, e.0),
                        ));
                    },
                    None => {},
                }
            } else {
                kept.push(e);
            }
            i += 1;
        }
        assert(c.running.take(n as int) =~= c.running);
        self.running = kept;
        proof {
            lemma_remove_worker_keeps_wf(c, worker.id);
        }
    }
}

/// Taking from queues is determined: with unique ids, one waiting job at
/// most is the one taken.
pub proof fn lemma_selected_unique(ws: Seq<WaitingView>, qs: Seq<Seq<char>>, k1: int, k2: int)
    requires
        waiting_ids_unique(ws),
        is_selected(ws, qs, k1),
        is_selected(ws, qs, k2),
    ensures
        k1 == k2,
{
    let p = ws[k1].priority;
    assert(ws[k2].priority <= p);
    assert(p <= ws[k2].priority);
    let c1 = choose|c: int|
        0 <= c < qs.len() && qs[c] == ws[k1].queue && forall|i: int, j: int|
            c < i < qs.len() && 0 <= j < ws.len() && #[trigger] ws[j].queue == #[trigger] qs[i]
                ==> ws[j].priority < ws[k1].priority;
    let c2 = choose|c: int|
        0 <= c < qs.len() && qs[c] == ws[k2].queue && forall|i: int, j: int|
            c < i < qs.len() && 0 <= j < ws.len() && #[trigger] ws[j].queue == #[trigger] qs[i]
                ==> ws[j].priority < ws[k2].priority;
    if c1 < c2 {
        assert(ws[k2].queue == qs[c2]);
        assert(ws[k2].priority < ws[k1].priority);
    } else if c2 < c1 {
        assert(ws[k1].queue == qs[c1]);
        assert(ws[k1].priority < ws[k2].priority);
    }
    assert(ws[k1].queue == ws[k2].queue);
    assert(ranks_over(ws[k1], ws[k2]));
    assert(ranks_over(ws[k2], ws[k1]));
    if k1 != k2 {
        assert(ws[k1].id != ws[k2].id);
    }
}

/// A job given back is no longer held, and waits again: a second give-back
/// by the same worker is refused.
pub proof fn lemma_abort_once(c: CentreView, w: u64, id: u32)
    requires
        c.wf(),
        holds(c, w, id),
    ensures
        ({
            let e = CentreView {
                waiting: c.waiting.push(requeued(c, id)),
                running: running_without(c.running, id),
                ..c
            };
            &&& !holds(e, w, id)
            &&& e.waiting.last().id == id
        }),
{
    lemma_running_without(c.running, id);
    let r = running_without(c.running, id);
    if exists|k: int| 0 <= k < r.len() && #[trigger] r[k] == (id, w) {
        let k = choose|k: int| 0 <= k < r.len() && #[trigger] r[k] == (id, w);
        assert(r[k].0 != id);
    }
}

/// A deleted job is gone: deleting it again finds nothing.
pub proof fn lemma_delete_once(c: CentreView, t: int, id: u32)
    requires
        c.wf(),
        0 <= t < c.jobs.len(),
        c.jobs[t].id == id,
    ensures
        !has_job(CentreView { jobs: c.jobs.remove(t), ..c }, id),
{
    let js = c.jobs.remove(t);
    if exists|i: int| 0 <= i < js.len() && js[i].id == id {
        let i = choose|i: int| 0 <= i < js.len() && js[i].id == id;
        let i0 = if i < t {
            i
        } else {
            i + 1
        };
        assert(js[i] == c.jobs[i0]);
        assert(c.jobs[i0].id != c.jobs[t].id);
    }
}

/// Only the worker that took a job may give it back. Another worker's
/// abort finds it does not hold the job (so `abort` refuses it and changes
/// nothing); the holder's abort puts the job back in its queue with its
/// priority, and after that neither of them holds it, so a second abort is
/// refused too.
pub proof fn lemma_abort_by_holder_only(c: CentreView, holder: u64, other: u64, id: u32)
    requires
        c.wf(),
        holds(c, holder, id),
        other != holder,
    ensures
        !holds(c, other, id),
        ({
            let e = CentreView {
                waiting: c.waiting.push(requeued(c, id)),
                running: running_without(c.running, id),
                ..c
            };
            &&& !holds(e, holder, id)
            &&& !holds(e, other, id)
            &&& e.waiting.last() == (WaitingView {
                priority: job_of(c, id).priority,
                id,
                queue: job_of(c, id).queue,
            })
            &&& e.jobs == c.jobs
            &&& has_job(e, id)
        }),
{
    let k1 = choose|k: int| 0 <= k < c.running.len() && #[trigger] c.running[k] == (id, holder);
    if holds(c, other, id) {
        let k2 = choose|k: int| 0 <= k < c.running.len() && #[trigger] c.running[k] == (id, other);
        assert(k1 != k2);
        assert(c.running[k1].0 == c.running[k2].0);
    }
    assert(has_job(c, c.running[k1].0));
    assert(running_ids_unique(c.running));
    lemma_running_without(c.running, id);
    let r = running_without(c.running, id);
    if holds(CentreView { running: r, ..c }, holder, id) {
        let k = choose|k: int| 0 <= k < r.len() && #[trigger] r[k] == (id, holder);
        assert(r[k].0 != id);
    }
    if holds(CentreView { running: r, ..c }, other, id) {
        let k = choose|k: int| 0 <= k < r.len() && #[trigger] r[k] == (id, other);
        assert(r[k].0 != id);
    }
}

/// A deleted job is gone for good: no job has its id (a second delete
/// finds nothing), none waits with it (no get gives it), no worker holds it
/// (no abort is accepted), and it lies below the next id, so no later job
/// takes it.
pub proof fn lemma_deleted_for_good(c: CentreView, t: int, id: u32)
    requires
        c.wf(),
        0 <= t < c.jobs.len(),
        c.jobs[t].id == id,
    ensures
        ({
            let e = CentreView {
                jobs: c.jobs.remove(t),
                waiting: waiting_without(c.waiting, id),
                running: running_without(c.running, id),
                ..c
            };
            &&& !has_job(e, id)
            &&& forall|k: int| 0 <= k < e.waiting.len() ==> #[trigger] e.waiting[k].id != id
            &&& forall|w: u64| !holds(e, w, id)
            &&& id < e.next_id
        }),
{
    lemma_delete_once(c, t, id);
    assert(waiting_ids_unique(c.waiting));
    assert(running_ids_unique(c.running));
    lemma_waiting_without(c.waiting, id);
    lemma_running_without(c.running, id);
    let r = running_without(c.running, id);
    let e = CentreView {
        jobs: c.jobs.remove(t),
        waiting: waiting_without(c.waiting, id),
        running: r,
        ..c
    };
    assert forall|w: u64| !holds(e, w, id) by {
        if holds(e, w, id) {
            let k = choose|k: int| 0 <= k < e.running.len() && #[trigger] e.running[k] == (id, w);
            assert(r[k].0 != id);
        }
    }
}

} // verus!
