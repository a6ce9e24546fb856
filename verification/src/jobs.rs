//! Rate limiting of job progress events.
use vstd::prelude::*;

use std::collections::VecDeque;
use std::time::{Duration, Instant};

use crate::text::{chars_of, is_ascii_digit, str_eq};

verus! {

#[verifier::external_type_specification]
#[verifier::external_body]
pub struct ExInstant(Instant);

/// `Instant::now`: a reading of the monotonic clock. Nothing is stated of it.
#[verifier::external_body]
fn instant_now() -> (r: Instant) {
    Instant::now()
}

/// `Instant::duration_since`: the time from `earlier` to `now`. Nothing is
/// stated of it: it depends on when the two readings were taken.
#[verifier::external_body]
fn duration_since(now: &Instant, earlier: &Instant) -> (r: Duration) {
    now.duration_since(*earlier)
}

/// `Duration::as_millis`: the whole milliseconds of a duration. Nothing is
/// stated of it, as `Duration` is opaque here.
#[verifier::external_body]
fn duration_as_millis(d: &Duration) -> (r: u128) {
    d.as_millis()
}

/// The kind of a progress message: its text with the ASCII digits removed.
pub open spec fn message_kind(message: Seq<char>) -> Seq<char> {
    message.filter(|c: char| !is_ascii_digit(c))
}

/// Rate limiter for `karaoke://jobs` progress events. yt-dlp and demucs print
/// progress many times per second and every event re-renders the frontend.
/// Stage changes, status changes and new kinds of message (the text with its
/// numbers removed) always go through; plain percentage ticks are capped.
pub struct ProgressThrottle {
    pub last_emit: Option<Instant>,
    pub last_step: usize,
    pub last_kind: String,
}

/// Minimum time between two events of the same stage and kind.
pub const MIN_INTERVAL_MS: u64 = 200;

impl ProgressThrottle {
    pub fn new() -> (r: Self)
        ensures
            r.last_emit is None,
            r.last_step == usize::MAX,
            r.last_kind@ == Seq::<char>::empty(),
    {
        ProgressThrottle { last_emit: None, last_step: usize::MAX, last_kind: String::new() }
    }

    /// Whether to send this progress event, `elapsed_ms` whole milliseconds
    /// after the last one sent (`None` when none was sent yet). The first
    /// event, a status other than `active`, a new stage and a new kind of
    /// message always go through; otherwise an event goes through once
    /// `MIN_INTERVAL_MS` have passed. A sent event, taken at `now`, becomes the
    /// last one.
    pub fn should_emit_after(
        &mut self,
        now: Instant,
        elapsed_ms: Option<u128>,
        step: usize,
        status: &str,
        message: &str,
    ) -> (r: bool)
        ensures
            r == emit_rule(elapsed_ms, step, status@, message@, old(self).last_step, old(self).last_kind@),
            r ==> final(self).last_emit == Some(now) && final(self).last_step == step
                && final(self).last_kind@ == message_kind(message@),
            !r ==> final(self).last_emit == old(self).last_emit && final(self).last_step == old(
                self,
            ).last_step && final(self).last_kind@ == old(self).last_kind@,
    {
        let kind = message_kind_of(message);
        let due = match elapsed_ms {
            None => true,
            Some(ms) => ms >= MIN_INTERVAL_MS as u128,
        };
        let emit = due || !str_eq(status, "active") || step != self.last_step || !(kind
            == self.last_kind);
        if emit {
            self.last_emit = Some(now);
            self.last_step = step;
            self.last_kind = kind;
        }
        emit
    }

    /// Whether to send this progress event now (see `should_emit_after`): the
    /// clock is read and the time since the last event sent is measured.
    pub fn should_emit(&mut self, step: usize, status: &str, message: &str) -> (r: bool)
        ensures
            old(self).last_emit is None ==> r,
            old(self).last_emit is Some ==> exists|ms: u128|
                r == #[trigger] emit_rule(
                    Some(ms),
                    step,
                    status@,
                    message@,
                    old(self).last_step,
                    old(self).last_kind@,
                ),
            r ==> final(self).last_emit is Some && final(self).last_step == step
                && final(self).last_kind@ == message_kind(message@),
            !r ==> final(self).last_emit == old(self).last_emit && final(self).last_step == old(
                self,
            ).last_step && final(self).last_kind@ == old(self).last_kind@,
    {
        let now = instant_now();
        let ghost was_none = self.last_emit is None;
        let ghost last_step = self.last_step;
        let ghost last_kind = self.last_kind@;
        let elapsed_ms = match &self.last_emit {
            None => None,
            Some(t) => Some(duration_as_millis(&duration_since(&now, t))),
        };
        let r = self.should_emit_after(now, elapsed_ms, step, status, message);
        proof {
            if !was_none {
                let w: u128 = elapsed_ms->0;
                assert(r == emit_rule(Some(w), step, status@, message@, last_step, last_kind));
            }
        }
        r
    }
}

/// The throttle's rule: an event goes through when none was sent yet, when
/// at least `MIN_INTERVAL_MS` passed since the last one, when its status is
/// not `active`, or when its stage or its kind of message differs from the
/// last one sent.
pub open spec fn emit_rule(
    elapsed_ms: Option<u128>,
    step: usize,
    status: Seq<char>,
    message: Seq<char>,
    last_step: usize,
    last_kind: Seq<char>,
) -> bool {
    ||| elapsed_ms is None
    ||| elapsed_ms->0 >= MIN_INTERVAL_MS
    ||| status != "active"@
    ||| step != last_step
    ||| message_kind(message) != last_kind
}

fn message_kind_of(message: &str) -> (r: String)
    ensures
        r@ == message_kind(message@),
{
    let chars = chars_of(message);
    let mut kept: Vec<char> = Vec::new();
    let mut i: usize = 0;
    while i < chars.len()
        invariant
            i <= chars@.len(),
            chars@ == message@,
            kept@ == message_kind(chars@.take(i as int)),
        decreases chars@.len() - i,
    {
        let c = chars[i];
        proof {
            assert(chars@.take(i + 1) =~= chars@.take(i as int).push(c));
            chars@.take(i as int).lemma_filter_push(c, |c: char| !is_ascii_digit(c));
        }
        if !('0' <= c && c <= '9') {
            kept.push(c);
        }
        i += 1;
    }
    proof {
        assert(chars@.take(chars@.len() as int) =~= chars@);
    }
    crate::text::string_from_chars(&kept)
}

// ───────────── the job queue ─────────────

#[derive(Debug, Clone, Copy, PartialEq, Eq, Structural)]
pub enum JobStatus {
    Queued,
    Active,
    Done,
    Error,
    Canceled,
}

pub open spec fn status_name(s: JobStatus) -> Seq<char> {
    match s {
        JobStatus::Queued => "queued"@,
        JobStatus::Active => "active"@,
        JobStatus::Done => "done"@,
        JobStatus::Error => "error"@,
        JobStatus::Canceled => "canceled"@,
    }
}

impl JobStatus {
    /// Name the frontend shows.
    pub fn as_str(&self) -> (r: &'static str)
        ensures
            r@ == status_name(*self),
    {
        match self {
            JobStatus::Queued => "queued",
            JobStatus::Active => "active",
            JobStatus::Done => "done",
            JobStatus::Error => "error",
            JobStatus::Canceled => "canceled",
        }
    }
}

/// What the queue knows of a job (its progress fraction and result travel
/// beside it).
#[derive(Debug, Clone)]
pub struct JobRecord {
    pub id: String,
    pub url: String,
    pub status: JobStatus,
    pub current_step: usize,
    pub message: String,
    pub error: Option<String>,
}

/// Jobs in order of submission, ids waiting to run, whether a worker is
/// running, and the ids canceled so far.
#[derive(Debug, Clone)]
pub struct JobBook {
    pub jobs: Vec<JobRecord>,
    pub pending: VecDeque<String>,
    pub worker_alive: bool,
    pub cancel_ids: Vec<String>,
}

pub open spec fn ids(v: Seq<String>) -> Seq<Seq<char>> {
    v.map_values(|s: String| s@)
}

/// Index of the first job with id `id`.
pub open spec fn find_job(jobs: Seq<JobRecord>, id: Seq<char>) -> Option<int> {
    if exists|i: int| 0 <= i < jobs.len() && (#[trigger] jobs[i]).id@ == id {
        Some(
            choose|i: int|
                0 <= i < jobs.len() && jobs[i].id@ == id && forall|j: int|
                    0 <= j < i ==> (#[trigger] jobs[j]).id@ != id,
        )
    } else {
        None
    }
}

/// `job` with a new status and message, everything else kept.
pub open spec fn restated(job: JobRecord, status: JobStatus, message: Seq<char>, j2: JobRecord) -> bool {
    &&& j2.id == job.id
    &&& j2.url == job.url
    &&& j2.status == status
    &&& j2.current_step == job.current_step
    &&& j2.message@ == message
    &&& j2.error == job.error
}

/// The next thing the worker does.
#[derive(Debug, Clone, PartialEq, Eq)]
pub enum NextJob {
    /// Nothing pending: the worker stops.
    Drained,
    /// The job at this index was canceled before it ran (report it).
    Canceled(usize),
    /// A pending id with no job: skip it.
    Skipped,
    /// Run the job at this index (now active) on its URL.
    Run(usize),
}

/// What the worker does next with these jobs, pending ids and canceled ids:
/// stop when nothing is pending, else take the oldest pending id and report
/// its job canceled if the id was canceled, run it otherwise, or skip an id
/// without a job.
pub open spec fn next_outcome(jobs: Seq<JobRecord>, pending: Seq<String>, cancel_ids: Seq<String>) -> NextJob {
    if pending.len() == 0 {
        NextJob::Drained
    } else {
        let id = pending[0]@;
        match find_job(jobs, id) {
            Some(i) => if ids(cancel_ids).contains(id) {
                NextJob::Canceled(i as usize)
            } else {
                NextJob::Run(i as usize)
            },
            None => NextJob::Skipped,
        }
    }
}

proof fn lemma_first_match(jobs: Seq<JobRecord>, id: Seq<char>, k: int)
    requires
        0 <= k < jobs.len(),
        jobs[k].id@ == id,
    ensures
        exists|i: int|
            0 <= i < jobs.len() && jobs[i].id@ == id && forall|j: int| 0 <= j < i ==> (#[trigger] jobs[j]).id@ != id,
    decreases k,
{
    if exists|j: int| 0 <= j < k && (#[trigger] jobs[j]).id@ == id {
        let j = choose|j: int| 0 <= j < k && (#[trigger] jobs[j]).id@ == id;
        lemma_first_match(jobs, id, j);
    } else {
        assert(forall|j: int| 0 <= j < k ==> (#[trigger] jobs[j]).id@ != id);
    }
}

/// The job `find_job` names carries the id looked up, and no earlier job does.
pub proof fn lemma_find_job(jobs: Seq<JobRecord>, id: Seq<char>)
    ensures
        find_job(jobs, id) matches Some(i) ==> 0 <= i < jobs.len() && jobs[i].id@ == id && forall|j: int|
            0 <= j < i ==> (#[trigger] jobs[j]).id@ != id,
{
    if exists|i: int| 0 <= i < jobs.len() && (#[trigger] jobs[i]).id@ == id {
        let k = choose|i: int| 0 <= i < jobs.len() && (#[trigger] jobs[i]).id@ == id;
        lemma_first_match(jobs, id, k);
    }
}

/// A canceled job never runs: once its id is among the canceled ids, the
/// worker's next step is not to run a job with that id (it reports the job
/// canceled instead).
pub proof fn law_canceled_job_never_runs(
    jobs: Seq<JobRecord>,
    pending: Seq<String>,
    cancel_ids: Seq<String>,
    id: Seq<char>,
)
    requires
        jobs.len() <= usize::MAX,
        ids(cancel_ids).contains(id),
    ensures
        next_outcome(jobs, pending, cancel_ids) matches NextJob::Run(i) ==> jobs[i as int].id@ != id,
        pending.len() > 0 && pending[0]@ == id && find_job(jobs, id) is Some ==> next_outcome(
            jobs,
            pending,
            cancel_ids,
        ) is Canceled,
{
    if pending.len() > 0 {
        lemma_find_job(jobs, pending[0]@);
    }
}

fn find_index(jobs: &Vec<JobRecord>, id: &str) -> (r: Option<usize>)
    ensures
        match r {
            Some(i) => find_job(jobs@, id@) == Some(i as int) && i < jobs@.len() && jobs@[i as int].id@
                == id@,
            None => find_job(jobs@, id@) is None,
        },
{
    let mut i: usize = 0;
    while i < jobs.len()
        invariant
            i <= jobs@.len(),
            forall|j: int| 0 <= j < i ==> (#[trigger] jobs@[j]).id@ != id@,
        decreases jobs@.len() - i,
    {
        if crate::text::str_eq(jobs[i].id.as_str(), id) {
            assert(jobs@[i as int].id@ == id@);
            return Some(i);
        }
        i += 1;
    }
    None
}

fn contains_id(v: &Vec<String>, id: &str) -> (r: bool)
    ensures
        r == ids(v@).contains(id@),
{
    let mut i: usize = 0;
    while i < v.len()
        invariant
            i <= v@.len(),
            forall|j: int| 0 <= j < i ==> v@[j]@ != id@,
        decreases v@.len() - i,
    {
        if crate::text::str_eq(v[i].as_str(), id) {
            assert(ids(v@)[i as int] == id@);
            return true;
        }
        i += 1;
    }
    assert forall|j: int| 0 <= j < ids(v@).len() implies ids(v@)[j] != id@ by {
        assert(ids(v@)[j] == v@[j]@);
    }
    false
}

fn set_status(jobs: &mut Vec<JobRecord>, i: usize, status: JobStatus, message: &str)
    requires
        i < old(jobs)@.len(),
    ensures
        final(jobs)@.len() == old(jobs)@.len(),
        forall|j: int| 0 <= j < final(jobs)@.len() && j != i ==> final(jobs)@[j] == old(jobs)@[j],
        restated(old(jobs)@[i as int], status, message@, final(jobs)@[i as int]),
{
    jobs[i].status = status;
    jobs[i].message = String::from_str(message);
}

/// The canceled ids before a step are still the first canceled ids after it.
pub open spec fn cancels_kept(before: Seq<String>, after: Seq<String>) -> bool {
    ids(before) == ids(after).take(ids(before).len() as int) && ids(before).len() <= ids(after).len()
}

/// No job became `done` in a step.
pub open spec fn no_new_done(before: Seq<JobRecord>, after: Seq<JobRecord>) -> bool {
    forall|j: int|
        0 <= j < after.len() && (#[trigger] after[j]).status == JobStatus::Done ==> j < before.len()
            && before[j].status == JobStatus::Done
}

impl JobBook {
    pub fn new() -> (r: Self)
        ensures
            r.jobs@.len() == 0,
            r.pending@.len() == 0,
            !r.worker_alive,
            r.cancel_ids@.len() == 0,
    {
        JobBook { jobs: Vec::new(), pending: VecDeque::new(), worker_alive: false, cancel_ids: Vec::new() }
    }

    /// Queue a job; true when no worker runs and one must be started (it is
    /// then counted as running).
    pub fn enqueue(&mut self, id: String, url: String) -> (should_start: bool)
        ensures
            final(self).jobs@.len() == old(self).jobs@.len() + 1,
            final(self).jobs@.take(old(self).jobs@.len() as int) == old(self).jobs@,
            final(self).jobs@.last().id == id,
            final(self).jobs@.last().url == url,
            final(self).jobs@.last().status == JobStatus::Queued,
            final(self).jobs@.last().current_step == 0,
            final(self).jobs@.last().message@ == "Queued"@,
            final(self).jobs@.last().error is None,
            final(self).pending@ == old(self).pending@.push(id),
            final(self).cancel_ids@ == old(self).cancel_ids@,
            should_start == !old(self).worker_alive,
            final(self).worker_alive,
            cancels_kept(old(self).cancel_ids@, final(self).cancel_ids@),
            no_new_done(old(self).jobs@, final(self).jobs@),
    {
        let job = JobRecord {
            id: id.clone(),
            url,
            status: JobStatus::Queued,
            current_step: 0,
            message: String::from_str("Queued"),
            error: None,
        };
        let ghost before = self.jobs@;
        self.jobs.push(job);
        assert(self.jobs@.take(before.len() as int) =~= before);
        self.pending.push_back(id);
        let should_start = !self.worker_alive;
        self.worker_alive = true;
        proof {
            assert(ids(self.cancel_ids@).take(ids(self.cancel_ids@).len() as int) =~= ids(self.cancel_ids@));
            assert forall|j: int|
                0 <= j < self.jobs@.len() && (#[trigger] self.jobs@[j]).status == JobStatus::Done implies j
                    < before.len() && before[j].status == JobStatus::Done by {
                if j < before.len() {
                    assert(self.jobs@[j] == before[j]);
                }
            }
        }
        should_start
    }

    /// Cancel a job: remembered as canceled, dropped from the pending ids, and
    /// marked canceled when it was still queued (its index is returned to
    /// report it).
    #[verifier::rlimit(30)]
    pub fn cancel(&mut self, id: &str) -> (changed: Option<usize>)
        ensures
            ids(final(self).cancel_ids@) == ids(old(self).cancel_ids@).push(id@),
            ids(final(self).pending@) == ids(old(self).pending@).filter(|x: Seq<char>| x != id@),
            final(self).worker_alive == old(self).worker_alive,
            final(self).jobs@.len() == old(self).jobs@.len(),
            match find_job(old(self).jobs@, id@) {
                Some(i) => if old(self).jobs@[i].status == JobStatus::Queued {
                    &&& changed == Some(i as usize)
                    &&& restated(old(self).jobs@[i], JobStatus::Canceled, "Canceled"@, final(self).jobs@[i])
                    &&& forall|j: int| 0 <= j < final(self).jobs@.len() && j != i ==> final(self).jobs@[j]
                        == old(self).jobs@[j]
                } else {
                    changed is None && final(self).jobs@ == old(self).jobs@
                },
                None => changed is None && final(self).jobs@ == old(self).jobs@,
            },
            cancels_kept(old(self).cancel_ids@, final(self).cancel_ids@),
            no_new_done(old(self).jobs@, final(self).jobs@),
    {
        let ghost before_cancel = self.cancel_ids@;
        self.cancel_ids.push(String::from_str(id));
        assert(ids(self.cancel_ids@) =~= ids(before_cancel).push(id@));
        let changed = match find_index(&self.jobs, id) {
            Some(i) => {
                if self.jobs[i].status == JobStatus::Queued {
                    set_status(&mut self.jobs, i, JobStatus::Canceled, "Canceled");
                    Some(i)
                } else {
                    None
                }
            },
            None => None,
        };
        let ghost old_pending = ids(self.pending@);
        let mut kept: VecDeque<String> = VecDeque::new();
        let mut k: usize = 0;
        while k < self.pending.len()
            invariant
                k <= self.pending@.len(),
                old_pending == ids(self.pending@),
                ids(kept@) == old_pending.take(k as int).filter(|x: Seq<char>| x != id@),
            decreases self.pending@.len() - k,
        {
            proof {
                assert(old_pending.take(k + 1) =~= old_pending.take(k as int).push(old_pending[k as int]));
                old_pending.take(k as int).lemma_filter_push(old_pending[k as int], |x: Seq<char>| x != id@);
            }
            if !crate::text::str_eq(self.pending[k].as_str(), id) {
                let ghost b = kept@;
                kept.push_back(self.pending[k].clone());
                assert(ids(kept@) =~= ids(b).push(old_pending[k as int]));
            }
            k += 1;
        }
        assert(old_pending.take(old_pending.len() as int) =~= old_pending);
        self.pending = kept;
        assert(ids(self.cancel_ids@).take(ids(before_cancel).len() as int) =~= ids(before_cancel));
        changed
    }

    /// Take the next pending id and say what the worker does with it: stop
    /// when none is left (the worker is no longer running), report a job
    /// canceled in the meantime, skip an unknown id, or start the job.
    pub fn next_job(&mut self) -> (r: NextJob)
        ensures
            r == next_outcome(old(self).jobs@, old(self).pending@, old(self).cancel_ids@),
            old(self).pending@.len() == 0 ==> r == NextJob::Drained && !final(self).worker_alive
                && final(self).jobs@ == old(self).jobs@,
            old(self).pending@.len() > 0 ==> {
                let id = old(self).pending@[0]@;
                &&& final(self).pending@ == old(self).pending@.drop_first()
                &&& final(self).worker_alive == old(self).worker_alive
                &&& final(self).jobs@.len() == old(self).jobs@.len()
                &&& if ids(old(self).cancel_ids@).contains(id) {
                    match find_job(old(self).jobs@, id) {
                        Some(i) => r == NextJob::Canceled(i as usize) && restated(
                            old(self).jobs@[i],
                            JobStatus::Canceled,
                            "Canceled"@,
                            final(self).jobs@[i],
                        ),
                        None => r == NextJob::Skipped && final(self).jobs@ == old(self).jobs@,
                    }
                } else {
                    match find_job(old(self).jobs@, id) {
                        Some(i) => r == NextJob::Run(i as usize) && restated(
                            old(self).jobs@[i],
                            JobStatus::Active,
                            "Starting..."@,
                            final(self).jobs@[i],
                        ),
                        None => r == NextJob::Skipped && final(self).jobs@ == old(self).jobs@,
                    }
                }
                &&& forall|j: int|
                    0 <= j < final(self).jobs@.len() && (r != NextJob::Canceled(j as usize) && r
                        != NextJob::Run(j as usize)) ==> final(self).jobs@[j] == old(self).jobs@[j]
            },
            final(self).cancel_ids@ == old(self).cancel_ids@,
            cancels_kept(old(self).cancel_ids@, final(self).cancel_ids@),
            no_new_done(old(self).jobs@, final(self).jobs@),
    {
        proof {
            assert(ids(self.cancel_ids@).take(ids(self.cancel_ids@).len() as int) =~= ids(self.cancel_ids@));
        }
        if self.pending.len() == 0 {
            self.worker_alive = false;
            return NextJob::Drained;
        }
        let id = match self.pending.pop_front() {
            Some(x) => x,
            None => {
                return NextJob::Drained;
            },
        };
        assert(id@ == old(self).pending@[0]@);
        assert(self.pending@ =~= old(self).pending@.drop_first());
        let canceled = contains_id(&self.cancel_ids, id.as_str());
        match find_index(&self.jobs, id.as_str()) {
            Some(i) => {
                if canceled {
                    set_status(&mut self.jobs, i, JobStatus::Canceled, "Canceled");
                    NextJob::Canceled(i)
                } else {
                    set_status(&mut self.jobs, i, JobStatus::Active, "Starting...");
                    NextJob::Run(i)
                }
            },
            None => NextJob::Skipped,
        }
    }

    /// A progress report of the running job: its step and message; its status
    /// is `error` when the report says so and `active` otherwise (`done` is
    /// set only by `finish`).
    pub fn record_progress(&mut self, id: &str, step: usize, status: &str, message: &str) -> (r: Option<
        usize,
    >)
        ensures
            final(self).pending@ == old(self).pending@,
            final(self).cancel_ids@ == old(self).cancel_ids@,
            final(self).worker_alive == old(self).worker_alive,
            final(self).jobs@.len() == old(self).jobs@.len(),
            match find_job(old(self).jobs@, id@) {
                Some(i) => {
                    &&& r == Some(i as usize)
                    &&& final(self).jobs@[i].current_step == step
                    &&& final(self).jobs@[i].status == (if status@ == "error"@ {
                        JobStatus::Error
                    } else {
                        JobStatus::Active
                    })
                    &&& final(self).jobs@[i].message@ == message@
                    &&& final(self).jobs@[i].id == old(self).jobs@[i].id
                    &&& final(self).jobs@[i].url == old(self).jobs@[i].url
                    &&& final(self).jobs@[i].error == old(self).jobs@[i].error
                    &&& forall|j: int| 0 <= j < final(self).jobs@.len() && j != i ==> final(self).jobs@[j]
                        == old(self).jobs@[j]
                },
                None => r is None && final(self).jobs@ == old(self).jobs@,
            },
            no_new_done(old(self).jobs@, final(self).jobs@),
            cancels_kept(old(self).cancel_ids@, final(self).cancel_ids@),
    {
        proof {
            assert(ids(self.cancel_ids@).take(ids(self.cancel_ids@).len() as int) =~= ids(self.cancel_ids@));
        }
        match find_index(&self.jobs, id) {
            Some(i) => {
                let st = if crate::text::str_eq(status, "error") {
                    JobStatus::Error
                } else {
                    JobStatus::Active
                };
                self.jobs[i].current_step = step;
                self.jobs[i].status = st;
                self.jobs[i].message = String::from_str(message);
                Some(i)
            },
            None => None,
        }
    }

    /// The pipeline of a job returned: `done` on success, `error` with the
    /// message otherwise.
    pub fn finish(&mut self, id: &str, outcome: Result<(), String>) -> (r: Option<usize>)
        ensures
            final(self).pending@ == old(self).pending@,
            final(self).cancel_ids@ == old(self).cancel_ids@,
            final(self).worker_alive == old(self).worker_alive,
            final(self).jobs@.len() == old(self).jobs@.len(),
            match find_job(old(self).jobs@, id@) {
                Some(i) => {
                    &&& r == Some(i as usize)
                    &&& final(self).jobs@[i].id == old(self).jobs@[i].id
                    &&& final(self).jobs@[i].url == old(self).jobs@[i].url
                    &&& final(self).jobs@[i].current_step == old(self).jobs@[i].current_step
                    &&& match outcome {
                        Ok(()) => final(self).jobs@[i].status == JobStatus::Done
                            && final(self).jobs@[i].message@ == "Done"@ && final(self).jobs@[i].error
                            == old(self).jobs@[i].error,
                        Err(e) => final(self).jobs@[i].status == JobStatus::Error
                            && final(self).jobs@[i].message@ == e@ && final(self).jobs@[i].error == Some(e),
                    }
                    &&& forall|j: int| 0 <= j < final(self).jobs@.len() && j != i ==> final(self).jobs@[j]
                        == old(self).jobs@[j]
                },
                None => r is None && final(self).jobs@ == old(self).jobs@,
            },
            cancels_kept(old(self).cancel_ids@, final(self).cancel_ids@),
    {
        proof {
            assert(ids(self.cancel_ids@).take(ids(self.cancel_ids@).len() as int) =~= ids(self.cancel_ids@));
        }
        match find_index(&self.jobs, id) {
            Some(i) => {
                match outcome {
                    Ok(()) => {
                        self.jobs[i].status = JobStatus::Done;
                        self.jobs[i].message = String::from_str("Done");
                    },
                    Err(e) => {
                        self.jobs[i].status = JobStatus::Error;
                        self.jobs[i].message = e.clone();
                        self.jobs[i].error = Some(e);
                    },
                }
                Some(i)
            },
            None => None,
        }
    }
}

/// A canceled job never runs, over a whole run of the queue: in a sequence
/// of books where each step keeps the canceled ids (as every method of
/// `JobBook` does), once an id is canceled no later step of the worker runs a
/// job with that id.
pub proof fn law_canceled_job_never_runs_later(books: Seq<JobBook>, id: Seq<char>, k: int, m: int)
    requires
        0 <= k <= m < books.len(),
        forall|i: int| 0 <= i < books.len() - 1 ==> cancels_kept(#[trigger] books[i].cancel_ids@, books[i + 1].cancel_ids@),
        ids(books[k].cancel_ids@).contains(id),
        books[m].jobs@.len() <= usize::MAX,
    ensures
        next_outcome(books[m].jobs@, books[m].pending@, books[m].cancel_ids@) matches NextJob::Run(i)
            ==> books[m].jobs@[i as int].id@ != id,
    decreases m - k,
{
    if k < m {
        let a = ids(books[k].cancel_ids@);
        let b = ids(books[k + 1].cancel_ids@);
        assert(cancels_kept(books[k].cancel_ids@, books[k + 1].cancel_ids@));
        let w = choose|w: int| 0 <= w < a.len() && a[w] == id;
        assert(b.take(a.len() as int)[w] == b[w]);
        assert(b.contains(id));
        law_canceled_job_never_runs_later(books, id, k + 1, m);
    } else {
        law_canceled_job_never_runs(books[m].jobs@, books[m].pending@, books[m].cancel_ids@, id);
    }
}

} // verus!
