//! Background decoding: what is asked for, in which order it is served, and
//! when a finished decode is still wanted.
//!
//! The threads, the lock and the channels live with the program; this module
//! holds the queue they share. Work is ordered by distance from the cursor,
//! equal distances keep the order they were asked in, a path already queued
//! or decoding is not queued again, and switching folders retires everything
//! outstanding.
use vstd::prelude::*;
use crate::model::Frame;
use crate::raster::RgbaBuffer;
use crate::text::str_eq;

verus! {

// ---------------------------------------------------------------------------
// Messages
// ---------------------------------------------------------------------------

/// What size, and whether the on-disk cache applies.
#[derive(Clone, Copy, Debug)]
pub enum DecodeKind {
    /// Filmstrip thumbnail, backed by the on-disk cache.
    Thumbnail { box_w: u32, box_h: u32 },
    /// Canvas preview at display size; not disk-cached.
    Preview { max_dim: u32 },
}

/// One frame to decode.
pub struct DecodeRequest {
    pub path: String,
    /// Modification time, in seconds since the epoch.
    pub modified: Option<u64>,
    pub len: u64,
    /// Distance from the cursor. Lower is decoded sooner.
    pub priority: u32,
}

/// A finished decode.
pub enum DecodeOutcome {
    Ready {
        path: String,
        image: RgbaBuffer,
        /// Wall time of the decode, shown in the status bar.
        millis: u32,
    },
    Failed {
        path: String,
        message: String,
    },
}

impl DecodeOutcome {
    pub fn path(&self) -> (r: &String)
        ensures
            r == (match self {
                DecodeOutcome::Ready { path, .. } => path,
                DecodeOutcome::Failed { path, .. } => path,
            }),
    {
        match self {
            DecodeOutcome::Ready { path, .. } => path,
            DecodeOutcome::Failed { path, .. } => path,
        }
    }
}

/// A queued request, with the folder generation it was asked in and its
/// place in the order of asking.
pub struct Job {
    pub request: DecodeRequest,
    pub generation: u64,
    pub seq: u64,
}

// ---------------------------------------------------------------------------
// Order of service
// ---------------------------------------------------------------------------

/// `a` is served no later than `b`: nearer first, then earlier asked.
pub open spec fn served_before(a: Job, b: Job) -> bool {
    a.request.priority < b.request.priority
        || (a.request.priority == b.request.priority && a.seq <= b.seq)
}

/// `next` is what a pop from `queued` gives, and `rest` what stays: the first
/// job served no later than every other.
pub open spec fn popped(queued: Seq<Job>, next: Job, rest: Seq<Job>) -> bool {
    exists|i: int| {
        &&& 0 <= i < queued.len()
        &&& #[trigger] queued[i] == next
        &&& rest == queued.remove(i)
        &&& forall|k: int| 0 <= k < queued.len() ==> served_before(next, #[trigger] queued[k])
        &&& forall|k: int| 0 <= k < i ==> !served_before(#[trigger] queued[k], next)
    }
}

/// The jobs waiting to be decoded.
pub struct JobHeap {
    jobs: Vec<Job>,
}

impl View for JobHeap {
    type V = Seq<Job>;

    closed spec fn view(&self) -> Seq<Job> {
        self.jobs@
    }
}

impl JobHeap {
    pub fn new() -> (r: JobHeap)
        ensures
            r@ == Seq::<Job>::empty(),
    {
        JobHeap { jobs: Vec::new() }
    }

    pub fn len(&self) -> (r: usize)
        ensures
            r == self@.len(),
    {
        self.jobs.len()
    }

    pub fn is_empty(&self) -> (r: bool)
        ensures
            r == (self@.len() == 0),
    {
        self.jobs.len() == 0
    }

    pub fn push(&mut self, job: Job)
        ensures
            final(self)@ == old(self)@.push(job),
    {
        self.jobs.push(job);
    }

    pub fn clear(&mut self)
        ensures
            final(self)@ == Seq::<Job>::empty(),
    {
        self.jobs.clear();
    }

    /// Whether a job for `path` is waiting.
    pub fn holds(&self, path: &str) -> (r: bool)
        ensures
            r == exists|i: int| 0 <= i < self@.len() && (#[trigger] self@[i]).request.path@ == path@,
    {
        let mut i: usize = 0;
        while i < self.jobs.len()
            invariant
                0 <= i <= self.jobs.len(),
                forall|k: int| 0 <= k < i ==> (#[trigger] self.jobs@[k]).request.path@ != path@,
            decreases self.jobs.len() - i,
        {
            if str_eq(self.jobs[i].request.path.as_str(), path) {
                assert(self@[i as int].request.path@ == path@);
                return true;
            }
            i += 1;
        }
        false
    }

    /// Take the job to serve next: the nearest, and of equally near ones the
    /// earliest asked.
    pub fn pop(&mut self) -> (r: Option<Job>)
        ensures
            match r {
                Some(j) => popped(old(self)@, j, final(self)@),
                None => old(self)@.len() == 0 && final(self)@ == old(self)@,
            },
    {
        if self.jobs.len() == 0 {
            return None;
        }
        let mut best: usize = 0;
        let mut i: usize = 1;
        while i < self.jobs.len()
            invariant
                1 <= i <= self.jobs.len(),
                best < i,
                forall|k: int| 0 <= k < i ==> served_before(self.jobs@[best as int], #[trigger] self.jobs@[k]),
                forall|k: int| 0 <= k < best ==> !served_before(#[trigger] self.jobs@[k], self.jobs@[best as int]),
            decreases self.jobs.len() - i,
        {
            let a = &self.jobs[i];
            let b = &self.jobs[best];
            if a.request.priority < b.request.priority
                || (a.request.priority == b.request.priority && a.seq < b.seq) {
                best = i;
            }
            i += 1;
        }
        let ghost before = self.jobs@;
        let j = self.jobs.remove(best);
        assert(before[best as int] == j);
        Some(j)
    }
}

/// Popping twice serves the first popped no later than the second.
pub proof fn lemma_pops_come_in_service_order(queued: Seq<Job>, first: Job, mid: Seq<Job>, second: Job, rest: Seq<Job>)
    requires
        popped(queued, first, mid),
        popped(mid, second, rest),
    ensures
        served_before(first, second),
{
    let i = choose|i: int| {
        &&& 0 <= i < queued.len()
        &&& #[trigger] queued[i] == first
        &&& mid == queued.remove(i)
        &&& forall|k: int| 0 <= k < queued.len() ==> served_before(first, #[trigger] queued[k])
        &&& forall|k: int| 0 <= k < i ==> !served_before(#[trigger] queued[k], first)
    };
    let m = choose|m: int| {
        &&& 0 <= m < mid.len()
        &&& #[trigger] mid[m] == second
        &&& rest == mid.remove(m)
        &&& forall|k: int| 0 <= k < mid.len() ==> served_before(second, #[trigger] mid[k])
        &&& forall|k: int| 0 <= k < m ==> !served_before(#[trigger] mid[k], second)
    };
    if m < i {
        assert(mid[m] == queued[m]);
    } else {
        assert(mid[m] == queued[m + 1]);
    }
}

// ---------------------------------------------------------------------------
// The shared queue
// ---------------------------------------------------------------------------

/// No path is held twice.
pub open spec fn distinct_strings(s: Seq<String>) -> bool {
    forall|i: int, j: int| 0 <= i < s.len() && 0 <= j < s.len() && i != j ==> (#[trigger] s[i])@ != (#[trigger] s[j])@
}

/// `path` is among `s`.
pub open spec fn holds_path(s: Seq<String>, path: Seq<char>) -> bool {
    exists|i: int| 0 <= i < s.len() && (#[trigger] s[i])@ == path
}

/// The queue the decode workers share: waiting jobs, the paths queued or
/// decoding, the last place in the order of asking, and the folder
/// generation.
pub struct DecodeQueue {
    heap: JobHeap,
    outstanding: Vec<String>,
    seq: u64,
    generation: u64,
}

impl DecodeQueue {
    /// The jobs waiting.
    pub closed spec fn queued(&self) -> Seq<Job> {
        self.heap@
    }

    /// The paths queued or decoding.
    pub closed spec fn outstanding(&self) -> Seq<String> {
        self.outstanding@
    }

    /// The last place handed out in the order of asking.
    pub closed spec fn last_seq(&self) -> u64 {
        self.seq
    }

    /// The current folder generation.
    pub closed spec fn current_generation(&self) -> u64 {
        self.generation
    }

    /// Outstanding paths are distinct, and every waiting job was asked
    /// before the last place handed out.
    pub open spec fn wf(&self) -> bool {
        &&& distinct_strings(self.outstanding())
        &&& forall|i: int| 0 <= i < self.queued().len() ==> (#[trigger] self.queued()[i]).seq <= self.last_seq()
    }

    pub fn new() -> (r: DecodeQueue)
        ensures
            r.wf(),
            r.queued() == Seq::<Job>::empty(),
            r.outstanding() == Seq::<String>::empty(),
            r.last_seq() == 0,
            r.current_generation() == 0,
    {
        DecodeQueue { heap: JobHeap::new(), outstanding: Vec::new(), seq: 0, generation: 0 }
    }

    /// The last place handed out in the order of asking.
    pub fn seq(&self) -> (r: u64)
        ensures
            r == self.last_seq(),
    {
        self.seq
    }

    /// The current folder generation.
    pub fn generation(&self) -> (r: u64)
        ensures
            r == self.current_generation(),
    {
        self.generation
    }

    /// Whether `path` is queued or decoding.
    pub fn is_outstanding(&self, path: &str) -> (r: bool)
        ensures
            r == holds_path(self.outstanding(), path@),
    {
        let mut i: usize = 0;
        while i < self.outstanding.len()
            invariant
                0 <= i <= self.outstanding.len(),
                forall|k: int| 0 <= k < i ==> (#[trigger] self.outstanding@[k])@ != path@,
            decreases self.outstanding.len() - i,
        {
            if str_eq(self.outstanding[i].as_str(), path) {
                assert(self.outstanding@[i as int]@ == path@);
                return true;
            }
            i += 1;
        }
        false
    }

    /// Queue a decode, unless its path is already queued or decoding; says
    /// whether it was queued.
    pub fn request(&mut self, request: DecodeRequest) -> (queued: bool)
        requires
            old(self).wf(),
            old(self).last_seq() < u64::MAX,
        ensures
            final(self).wf(),
            queued == !holds_path(old(self).outstanding(), request.path@),
            queued ==> {
                &&& final(self).last_seq() == old(self).last_seq() + 1
                &&& final(self).outstanding() == old(self).outstanding().push(request.path)
                &&& final(self).queued() == old(self).queued().push(Job {
                        request,
                        generation: old(self).current_generation(),
                        seq: final(self).last_seq(),
                    })
            },
            !queued ==> {
                &&& final(self).last_seq() == old(self).last_seq()
                &&& final(self).outstanding() == old(self).outstanding()
                &&& final(self).queued() == old(self).queued()
            },
            final(self).current_generation() == old(self).current_generation(),
    {
        if self.is_outstanding(request.path.as_str()) {
            return false;
        }
        self.outstanding.push(request.path.clone());
        self.seq = self.seq + 1;
        let job = Job { request, generation: self.generation, seq: self.seq };
        self.heap.push(job);
        true
    }

    /// Take the next job to decode; its path stays outstanding until
    /// `finish`.
    pub fn take_next(&mut self) -> (r: Option<Job>)
        requires
            old(self).wf(),
        ensures
            final(self).wf(),
            match r {
                Some(j) => popped(old(self).queued(), j, final(self).queued()),
                None => old(self).queued().len() == 0 && final(self).queued() == old(self).queued(),
            },
            final(self).outstanding() == old(self).outstanding(),
            final(self).last_seq() == old(self).last_seq(),
            final(self).current_generation() == old(self).current_generation(),
    {
        let ghost before = self.heap@;
        let r = self.heap.pop();
        proof {
            if r is Some {
                let j = r->0;
                let i = choose|i: int| {
                    &&& 0 <= i < before.len()
                    &&& #[trigger] before[i] == j
                    &&& self.heap@ == before.remove(i)
                    &&& forall|k: int| 0 <= k < before.len() ==> served_before(j, #[trigger] before[k])
                    &&& forall|k: int| 0 <= k < i ==> !served_before(#[trigger] before[k], j)
                };
                assert forall|q: int| 0 <= q < self.heap@.len() implies (#[trigger] self.heap@[q]).seq <= self.seq by {
                    if q < i {
                        assert(self.heap@[q] == before[q]);
                    } else {
                        assert(self.heap@[q] == before[q + 1]);
                    }
                }
            }
        }
        r
    }

    /// A job asked in the current folder generation is still wanted.
    pub fn is_current(&self, job: &Job) -> (r: bool)
        ensures
            r == (job.generation == self.current_generation()),
    {
        job.generation == self.generation
    }

    /// Release `path` once its result is published or dropped, so it can be
    /// asked for again.
    pub fn finish(&mut self, path: &str)
        requires
            old(self).wf(),
        ensures
            final(self).wf(),
            !holds_path(final(self).outstanding(), path@),
            forall|p: Seq<char>| p != path@ ==>
                (holds_path(final(self).outstanding(), p) == holds_path(old(self).outstanding(), p)),
            final(self).queued() == old(self).queued(),
            final(self).last_seq() == old(self).last_seq(),
            final(self).current_generation() == old(self).current_generation(),
    {
        let ghost start = self.outstanding@;
        let mut i: usize = 0;
        while i < self.outstanding.len()
            invariant
                0 <= i <= self.outstanding.len(),
                distinct_strings(self.outstanding@),
                forall|k: int| 0 <= k < i ==> (#[trigger] self.outstanding@[k])@ != path@,
                forall|p: Seq<char>| p != path@ ==>
                    (holds_path(self.outstanding@, p) == holds_path(start, p)),
                !holds_path(start, path@) ==> !holds_path(self.outstanding@, path@),
                holds_path(start, path@) && !holds_path(self.outstanding@, path@) ==> i == self.outstanding.len(),
                start == old(self).outstanding@,
                old(self).wf(),
                self.heap == old(self).heap,
                self.seq == old(self).seq,
                self.generation == old(self).generation,
            decreases self.outstanding.len() - i,
        {
            if str_eq(self.outstanding[i].as_str(), path) {
                let ghost cur = self.outstanding@;
                self.outstanding.remove(i);
                proof {
                    let now = self.outstanding@;
                    assert forall|a: int, b: int| 0 <= a < now.len() && 0 <= b < now.len() && a != b
                        implies (#[trigger] now[a])@ != (#[trigger] now[b])@ by {
                        let a1 = if a < i { a } else { a + 1 };
                        let b1 = if b < i { b } else { b + 1 };
                        assert(now[a] == cur[a1] && now[b] == cur[b1]);
                    }
                    assert forall|p: Seq<char>| p != path@ implies
                        (holds_path(now, p) == holds_path(start, p)) by {
                        if holds_path(cur, p) {
                            let q = choose|q: int| 0 <= q < cur.len() && (#[trigger] cur[q])@ == p;
                            assert(q != i);
                            let q1 = if q < i { q } else { q - 1 };
                            assert(now[q1] == cur[q]);
                        }
                        if holds_path(now, p) {
                            let q = choose|q: int| 0 <= q < now.len() && (#[trigger] now[q])@ == p;
                            let q1 = if q < i { q } else { q + 1 };
                            assert(now[q] == cur[q1]);
                        }
                    }
                    assert(!holds_path(now, path@)) by {
                        if holds_path(now, path@) {
                            let q = choose|q: int| 0 <= q < now.len() && (#[trigger] now[q])@ == path@;
                            let q1 = if q < i { q } else { q + 1 };
                            assert(now[q] == cur[q1]);
                            assert(cur[i as int]@ == path@);
                        }
                    }
                    assert(distinct_strings(now));
                    assert(self.outstanding() == now);
                }
                return;
            }
            i += 1;
        }
        proof {
            if holds_path(self.outstanding@, path@) {
                let q = choose|q: int| 0 <= q < self.outstanding@.len() && (#[trigger] self.outstanding@[q])@ == path@;
            }
        }
    }

    /// Retire everything queued or decoding: a folder switch. The caches are
    /// left alone.
    pub fn cancel_all(&mut self)
        ensures
            final(self).wf(),
            final(self).current_generation() == old(self).current_generation().wrapping_add(1),
            final(self).queued() == Seq::<Job>::empty(),
            final(self).outstanding() == Seq::<String>::empty(),
            final(self).last_seq() == old(self).last_seq(),
    {
        self.generation = self.generation.wrapping_add(1);
        self.heap.clear();
        self.outstanding.clear();
    }

    /// Jobs waiting.
    pub fn pending(&self) -> (r: usize)
        ensures
            r == self.queued().len(),
    {
        self.heap.len()
    }
}

/// Asking twice for one path queues it once: a path that a request has just
/// queued is outstanding, so by `request`'s contract a second request of it
/// is refused and changes nothing.
pub proof fn lemma_second_request_is_dropped(outstanding: Seq<String>, path: String)
    ensures
        holds_path(outstanding.push(path), path@),
{
    assert(outstanding.push(path)[outstanding.len() as int] == path);
}

// ---------------------------------------------------------------------------
// Sizing the pools
// ---------------------------------------------------------------------------

/// The preview pool's share of `cores`: a third, at least 2 and at most 6.
pub open spec fn preview_workers(cores: nat) -> nat {
    let third = cores / 3;
    if third < 2 { 2 } else if third > 6 { 6 } else { third }
}

/// The thumbnail pool's share: what is left after the previews and one core
/// for the interface, at least 1.
pub open spec fn thumbnail_workers(cores: nat) -> nat {
    let p = preview_workers(cores);
    if cores > p + 1 { (cores - p - 1) as nat } else { 1 }
}

/// Split `cores` between the thumbnail and preview loaders; previews get the
/// larger share of a small machine, and one core is left for the interface.
pub fn split_workers(cores: usize) -> (r: (usize, usize))
    ensures
        r.0 == thumbnail_workers(cores as nat),
        r.1 == preview_workers(cores as nat),
        r.0 >= 1,
        2 <= r.1 <= 6,
{
    let third = cores / 3;
    let preview: usize = if third < 2 { 2 } else if third > 6 { 6 } else { third };
    let rest = cores.saturating_sub(preview + 1);
    let thumbs: usize = if rest < 1 { 1 } else { rest };
    (thumbs, preview)
}

// ---------------------------------------------------------------------------
// Folder scanning
// ---------------------------------------------------------------------------

/// What the folder scanner reports.
pub enum ScanOutcome {
    Progress { folder: String, found: usize },
    Done { folder: String, frames: Vec<Frame> },
}

/// The count to report after probing frame `index` of `total`: every
/// sixteenth frame, often enough for the bar to move and rarely enough not
/// to flood the channel.
pub fn progress_found(index: usize, total: usize) -> (r: Option<usize>)
    ensures
        r == (if index % 16 == 0 { Some(if index < total { index } else { total }) } else { None::<usize> }),
{
    if index % 16 == 0 {
        Some(if index < total { index } else { total })
    } else {
        None
    }
}

} // verus!
