//! Jobs and the queue that holds them, with the lease and retry rules.

use crate::field::range_eq;
use uuid::Uuid;
use vstd::prelude::*;

verus! {

/// The length of a job identifier in bytes.
pub const JOB_ID_SIZE: usize = 32;

/// The number of nanoseconds in a second.
pub const NANOS_PER_SEC: u128 = 1_000_000_000;

/// Whether `b` is a digit of lower-case hexadecimal.
pub open spec fn is_lower_hex(b: u8) -> bool {
    (0x30 <= b <= 0x39) || (0x61 <= b <= 0x66)
}

/// Whether `s` has the form of a job identifier: 32 digits of lower-case
/// hexadecimal.
pub open spec fn is_job_id(s: Seq<u8>) -> bool {
    &&& s.len() == JOB_ID_SIZE
    &&& forall|i: int| 0 <= i < s.len() ==> is_lower_hex(#[trigger] s[i])
}

/// `Uuid::new_v4`, written by `Simple::encode_lower`: a random identifier as
/// 32 digits of lower-case hexadecimal. Which digits is not determined.
#[verifier::external_body]
fn random_hex() -> (r: Vec<u8>)
    ensures
        is_job_id(r@),
{
    let mut buf = [0u8; 32];
    Uuid::new_v4().to_simple().encode_lower(&mut buf);
    buf.to_vec()
}

/// `SystemTime::elapsed` on the Unix epoch: the nanoseconds since then, or
/// `None` where the clock stands before it.
#[verifier::external_body]
fn clock() -> (r: Option<u128>) {
    match std::time::UNIX_EPOCH.elapsed() {
        Ok(d) => Some(d.as_nanos()),
        Err(_) => None,
    }
}

/// The current time in nanoseconds since the Unix epoch; `0` where the clock
/// stands before it.
pub fn now() -> u128 {
    match clock() {
        Some(t) => t,
        None => 0,
    }
}

/// The identifier of a job: 32 digits of lower-case hexadecimal.
#[derive(Debug)]
pub struct JobId {
    bytes: Vec<u8>,
}

impl View for JobId {
    type V = Seq<u8>;

    closed spec fn view(&self) -> Seq<u8> {
        self.bytes@
    }
}

impl JobId {
    #[verifier::type_invariant]
    spec fn well_formed(&self) -> bool {
        is_job_id(self.bytes@)
    }

    /// The identifier that `bytes` spell, if they have the form of one.
    pub fn from_bytes(bytes: &[u8]) -> (r: Option<JobId>)
        ensures
            r.is_some() == is_job_id(bytes@),
            r matches Some(id) ==> id@ == bytes@,
    {
        if bytes.len() != JOB_ID_SIZE {
            return None;
        }
        let mut copy: Vec<u8> = Vec::new();
        let mut i: usize = 0;
        while i < bytes.len()
            invariant
                i <= bytes.len(),
                copy@ == bytes@.take(i as int),
                forall|k: int| 0 <= k < i ==> is_lower_hex(#[trigger] bytes@[k]),
            decreases bytes.len() - i,
        {
            let b: u8 = bytes[i];
            if !((0x30 <= b && b <= 0x39) || (0x61 <= b && b <= 0x66)) {
                return None;
            }
            copy.push(b);
            proof {
                assert(bytes@.take(i as int).push(b) =~= bytes@.take(i + 1));
            }
            i += 1;
        }
        proof {
            assert(bytes@.take(bytes@.len() as int) =~= bytes@);
        }
        Some(JobId { bytes: copy })
    }

    /// A fresh random identifier.
    pub fn generate() -> (r: JobId)
        ensures
            is_job_id(r@),
    {
        JobId { bytes: random_hex() }
    }

    /// The bytes of the identifier.
    pub fn as_bytes(&self) -> (r: &[u8])
        ensures
            r@ == self@,
            is_job_id(r@),
    {
        proof {
            use_type_invariant(self);
        }
        self.bytes.as_slice()
    }

    /// Whether the identifier is spelled by `bytes`.
    pub fn is(&self, bytes: &[u8]) -> (r: bool)
        ensures
            r == (self@ == bytes@),
    {
        proof {
            assert(self.bytes@.subrange(0, self.bytes@.len() as int) =~= self.bytes@);
        }
        range_eq(self.bytes.as_slice(), 0, self.bytes.len(), bytes)
    }

    /// A copy of the identifier.
    pub fn duplicate(&self) -> (r: JobId)
        ensures
            r@ == self@,
            is_job_id(r@),
    {
        proof {
            use_type_invariant(self);
        }
        JobId { bytes: self.bytes.clone() }
    }
}

/// A job as a mathematical value.
pub struct JobView {
    pub id: Seq<u8>,
    pub job: Seq<u8>,
    pub retry: u64,
    pub running: bool,
    pub start: u128,
}

impl JobView {
    /// Whether more than the retry interval has passed at `now` since the
    /// job was last handed out.
    pub open spec fn expired(self, now: u128) -> bool {
        now as int - self.start as int > self.retry as int * NANOS_PER_SEC as int
    }

    /// Whether the job may be handed out at `now`: it is not leased, or its
    /// lease has expired.
    pub open spec fn eligible(self, now: u128) -> bool {
        !self.running || self.expired(now)
    }

    /// The job after it was handed out at `now`.
    pub open spec fn leased(self, now: u128) -> JobView {
        JobView { running: true, start: now, ..self }
    }
}

/// A payload waiting to be worked on, with its identity and lease.
#[derive(Debug)]
pub struct Job {
    pub id: JobId,
    pub job: Vec<u8>,
    pub retry: u64,
    pub running: bool,
    pub start: u128,
}

impl View for Job {
    type V = JobView;

    open spec fn view(&self) -> JobView {
        JobView {
            id: self.id@,
            job: self.job@,
            retry: self.retry,
            running: self.running,
            start: self.start,
        }
    }
}

impl Job {
    /// A job that is not leased, created at `now` under the identifier `id`.
    pub fn with_id(id: JobId, job: Vec<u8>, retry: u64, now: u128) -> (r: Job)
        ensures
            r@ == (JobView { id: id@, job: job@, retry, running: false, start: now }),
    {
        Job { id, job, retry, running: false, start: now }
    }

    /// A job that is not leased, created now under a fresh random identifier.
    pub fn new(job: Vec<u8>, retry: u64) -> (r: Job)
        ensures
            r@.job == job@,
            r@.retry == retry,
            !r@.running,
            is_job_id(r@.id),
    {
        let id = JobId::generate();
        Job::with_id(id, job, retry, now())
    }

    /// Leases the job at `now`.
    pub fn run_at(&mut self, now: u128)
        ensures
            final(self)@ == old(self)@.leased(now),
    {
        self.running = true;
        self.start = now;
    }

    /// Leases the job at the current time.
    pub fn run(&mut self)
        ensures
            final(self)@.running,
            final(self)@ == old(self)@.leased(final(self)@.start),
    {
        self.run_at(now());
    }

    /// Whether the lease has expired at `now`: more than `retry` seconds
    /// have passed since `start`.
    pub fn is_retry_at(&self, now: u128) -> (r: bool)
        ensures
            r == self@.expired(now),
    {
        now > self.start && now - self.start > (self.retry as u128) * NANOS_PER_SEC
    }

    /// Whether the lease has expired at the current time, whatever that is.
    pub fn is_retry(&self) -> (r: bool)
        ensures
            exists|now: u128| r == #[trigger] self@.expired(now),
    {
        let t = now();
        let r = self.is_retry_at(t);
        proof {
            assert(r == self@.expired(t));
        }
        r
    }
}

/// The position of the first job of `q` that may be handed out at `now`, or
/// the length of `q` where there is none.
pub open spec fn first_eligible(q: Seq<JobView>, now: u128) -> int
    decreases q.len(),
{
    if q.len() == 0 || q[0].eligible(now) {
        0
    } else {
        1 + first_eligible(q.skip(1), now)
    }
}

/// The position of the first job of `q` with the identifier `id`, or the
/// length of `q` where there is none.
pub open spec fn position_of(q: Seq<JobView>, id: Seq<u8>) -> int
    decreases q.len(),
{
    if q.len() == 0 || q[0].id == id {
        0
    } else {
        1 + position_of(q.skip(1), id)
    }
}

/// The number of jobs of `q` whose lease flag is set.
pub open spec fn leased_count(q: Seq<JobView>) -> nat
    decreases q.len(),
{
    if q.len() == 0 {
        0
    } else {
        leased_count(q.drop_last()) + if q.last().running {
            1nat
        } else {
            0nat
        }
    }
}

/// `first_eligible` is the least position of an eligible job.
pub proof fn lemma_first_eligible(q: Seq<JobView>, now: u128)
    ensures
        0 <= first_eligible(q, now) <= q.len(),
        forall|i: int| 0 <= i < first_eligible(q, now) ==> !(#[trigger] q[i]).eligible(now),
        first_eligible(q, now) < q.len() ==> q[first_eligible(q, now)].eligible(now),
    decreases q.len(),
{
    if q.len() == 0 || q[0].eligible(now) {
    } else {
        let t = q.skip(1);
        lemma_first_eligible(t, now);
        assert forall|i: int| 0 <= i < first_eligible(q, now) implies !(#[trigger] q[i]).eligible(
            now,
        ) by {
            if i > 0 {
                assert(t[i - 1] == q[i]);
            }
        }
        if first_eligible(q, now) < q.len() {
            assert(t[first_eligible(t, now)] == q[first_eligible(q, now)]);
        }
    }
}

/// A position before which no job is eligible, and which holds an eligible
/// job or is the length, is `first_eligible`.
pub proof fn lemma_first_eligible_is(q: Seq<JobView>, now: u128, n: int)
    requires
        0 <= n <= q.len(),
        forall|i: int| 0 <= i < n ==> !(#[trigger] q[i]).eligible(now),
        n < q.len() ==> q[n].eligible(now),
    ensures
        first_eligible(q, now) == n,
{
    lemma_first_eligible(q, now);
    let m = first_eligible(q, now);
    if m < n {
        assert(!q[m].eligible(now));
    } else if n < m {
        assert(!q[n].eligible(now));
    }
}

/// `position_of` is the least position of a job with the identifier.
pub proof fn lemma_position_of(q: Seq<JobView>, id: Seq<u8>)
    ensures
        0 <= position_of(q, id) <= q.len(),
        forall|i: int| 0 <= i < position_of(q, id) ==> (#[trigger] q[i]).id != id,
        position_of(q, id) < q.len() ==> q[position_of(q, id)].id == id,
    decreases q.len(),
{
    if q.len() == 0 || q[0].id == id {
    } else {
        let t = q.skip(1);
        lemma_position_of(t, id);
        assert forall|i: int| 0 <= i < position_of(q, id) implies (#[trigger] q[i]).id != id by {
            if i > 0 {
                assert(t[i - 1] == q[i]);
            }
        }
        if position_of(q, id) < q.len() {
            assert(t[position_of(t, id)] == q[position_of(q, id)]);
        }
    }
}

/// A position before which no job has the identifier, and which holds one
/// that has it or is the length, is `position_of`.
pub proof fn lemma_position_of_is(q: Seq<JobView>, id: Seq<u8>, n: int)
    requires
        0 <= n <= q.len(),
        forall|i: int| 0 <= i < n ==> (#[trigger] q[i]).id != id,
        n < q.len() ==> q[n].id == id,
    ensures
        position_of(q, id) == n,
{
    lemma_position_of(q, id);
    let m = position_of(q, id);
    if m < n {
        assert(q[m].id != id);
    } else if n < m {
        assert(q[n].id != id);
    }
}

/// No more jobs are leased than there are jobs.
pub proof fn lemma_leased_count_bound(q: Seq<JobView>)
    ensures
        leased_count(q) <= q.len(),
    decreases q.len(),
{
    if q.len() > 0 {
        lemma_leased_count_bound(q.drop_last());
    }
}

/// An ordered list of jobs, oldest first.
#[derive(Debug)]
pub struct Queue {
    jobs: Vec<Job>,
}

impl View for Queue {
    type V = Seq<JobView>;

    closed spec fn view(&self) -> Seq<JobView> {
        Seq::new(self.jobs@.len(), |i: int| self.jobs@[i]@)
    }
}

impl Queue {
    /// An empty queue.
    pub fn new() -> (q: Queue)
        ensures
            q@ == Seq::<JobView>::empty(),
    {
        let q = Queue { jobs: Vec::new() };
        proof {
            assert(q@ =~= Seq::<JobView>::empty());
        }
        q
    }

    /// Appends `job` at the tail.
    pub fn add(&mut self, job: Job)
        ensures
            final(self)@ == old(self)@.push(job@),
    {
        let ghost j = job@;
        self.jobs.push(job);
        proof {
            assert(self@ =~= old(self)@.push(j));
        }
    }

    /// Leases the first job that is eligible at `now` and returns its
    /// position; leaves the queue as it is where no job is eligible.
    pub fn lease_at(&mut self, now: u128) -> (r: Option<usize>)
        ensures
            r.is_some() == (first_eligible(old(self)@, now) < old(self)@.len()),
            r matches Some(i) ==> i == first_eligible(old(self)@, now) && final(self)@ == old(
                self,
            )@.update(i as int, old(self)@[i as int].leased(now)),
            r.is_none() ==> final(self)@ == old(self)@,
    {
        let mut i: usize = 0;
        while i < self.jobs.len()
            invariant
                i <= self.jobs@.len(),
                self.jobs@ == old(self).jobs@,
                forall|k: int| 0 <= k < i ==> !(#[trigger] self@[k]).eligible(now),
            decreases self.jobs@.len() - i,
        {
            let hit = !self.jobs[i].running || self.jobs[i].is_retry_at(now);
            proof {
                assert(self@[i as int] == self.jobs@[i as int]@);
            }
            if hit {
                proof {
                    lemma_first_eligible_is(old(self)@, now, i as int);
                }
                self.jobs[i].run_at(now);
                proof {
                    assert(self@ =~= old(self)@.update(i as int, old(self)@[i as int].leased(now)));
                }
                return Some(i);
            }
            i += 1;
        }
        proof {
            lemma_first_eligible_is(old(self)@, now, self@.len() as int);
        }
        None
    }

    /// Leases the first job that is eligible at `now` and returns it; leaves
    /// the queue as it is and returns nothing where no job is eligible.
    pub fn get_at(&mut self, now: u128) -> (r: Option<&Job>)
        ensures
            r.is_some() == (first_eligible(old(self)@, now) < old(self)@.len()),
            r matches Some(job) ==> job@ == old(self)@[first_eligible(old(self)@, now)].leased(now)
                && final(self)@ == old(self)@.update(first_eligible(old(self)@, now), job@),
            r.is_none() ==> final(self)@ == old(self)@,
    {
        match self.lease_at(now) {
            Some(i) => Some(self.job_at(i)),
            None => None,
        }
    }

    /// Leases the first job that is eligible at the current time, whatever
    /// that is, and returns it; leaves the queue as it is and returns
    /// nothing where no job is eligible.
    pub fn get(&mut self) -> (r: Option<&Job>)
        ensures
            exists|now: u128|
                {
                    &&& r.is_some() == (#[trigger] first_eligible(old(self)@, now) < old(self)@.len())
                    &&& r matches Some(job) ==> job@ == old(self)@[first_eligible(
                        old(self)@,
                        now,
                    )].leased(now) && final(self)@ == old(self)@.update(
                        first_eligible(old(self)@, now),
                        job@,
                    )
                    &&& r.is_none() ==> final(self)@ == old(self)@
                },
    {
        let t = now();
        let r = self.get_at(t);
        proof {
            assert(r.is_some() == (first_eligible(old(self)@, t) < old(self)@.len()));
        }
        r
    }

    /// The job at position `i`.
    pub fn job_at(&self, i: usize) -> (r: &Job)
        requires
            i < self@.len(),
        ensures
            r@ == self@[i as int],
    {
        &self.jobs[i]
    }

    /// Removes the first job with the identifier `job_id`; says whether
    /// there was one.
    pub fn ack(&mut self, job_id: &[u8]) -> (r: bool)
        ensures
            r == (position_of(old(self)@, job_id@) < old(self)@.len()),
            r ==> final(self)@ == old(self)@.remove(position_of(old(self)@, job_id@)),
            !r ==> final(self)@ == old(self)@,
    {
        let mut i: usize = 0;
        while i < self.jobs.len()
            invariant
                i <= self.jobs@.len(),
                self.jobs@ == old(self).jobs@,
                forall|k: int| 0 <= k < i ==> (#[trigger] self@[k]).id != job_id@,
            decreases self.jobs@.len() - i,
        {
            proof {
                assert(self@[i as int] == self.jobs@[i as int]@);
            }
            if self.jobs[i].id.is(job_id) {
                proof {
                    lemma_position_of_is(old(self)@, job_id@, i as int);
                }
                let _ = self.jobs.remove(i);
                proof {
                    assert(self@ =~= old(self)@.remove(i as int));
                }
                return true;
            }
            i += 1;
        }
        proof {
            lemma_position_of_is(old(self)@, job_id@, self@.len() as int);
        }
        false
    }

    /// The number of jobs.
    pub fn len(&self) -> (n: usize)
        ensures
            n == self@.len(),
    {
        self.jobs.len()
    }

    /// The number of jobs whose lease flag is set, expired or not.
    pub fn running_jobs(&self) -> (n: usize)
        ensures
            n == leased_count(self@),
            n <= self@.len(),
    {
        let mut count: usize = 0;
        let mut i: usize = 0;
        while i < self.jobs.len()
            invariant
                i <= self.jobs@.len(),
                count == leased_count(self@.take(i as int)),
                count <= i,
            decreases self.jobs@.len() - i,
        {
            proof {
                assert(self@.take(i + 1).drop_last() =~= self@.take(i as int));
                assert(self@.take(i + 1).last() == self.jobs@[i as int]@);
            }
            if self.jobs[i].running {
                count += 1;
            }
            i += 1;
        }
        proof {
            assert(self@.take(self@.len() as int) =~= self@);
        }
        count
    }

    /// Removes every job.
    pub fn clean(&mut self)
        ensures
            final(self)@ == Seq::<JobView>::empty(),
    {
        self.jobs.clear();
        proof {
            assert(self@ =~= Seq::<JobView>::empty());
        }
    }
}

} // verus!
