//! The queue manager: the owner of all queues, which answers one request at
//! a time.

use crate::bytemap::ByteMap;
use crate::command::Command;
use crate::decimal::{push_decimal, read_seconds};
use crate::field::{copy_range, find_delimiter, first_token, next_token, tokens};
use crate::message::{Reply, ReplyView, Request};
use crate::model::{
    ids_of, job_data, lemma_ack_one_wf, lemma_add_job_wf, lemma_addjob_queue_is_word,
    lemma_delete_wf, lemma_lease_in_wf, parse_addjob, stat_data, AddArgs, ManagerView,
};
use crate::queue::{is_job_id, leased_count, now, Job, JobId, JobView, Queue, JOB_ID_SIZE};
use crate::utils::DELIMITER;
use vstd::prelude::*;
use vstd::slice::slice_subrange;

verus! {

/// The queues by name and the index from job identifier to queue name.
pub struct QueueManager {
    queues: ByteMap<Queue>,
    reverse: ByteMap<Vec<u8>>,
}

impl View for QueueManager {
    type V = ManagerView;

    closed spec fn view(&self) -> ManagerView {
        ManagerView {
            queues: Map::new(
                |n: Seq<u8>| self.queues@.contains_key(n),
                |n: Seq<u8>| self.queues@[n]@,
            ),
            reverse: Map::new(
                |id: Seq<u8>| self.reverse@.contains_key(id),
                |id: Seq<u8>| self.reverse@[id]@,
            ),
        }
    }
}

/// Where the fields of an `ADDJOB` argument lie: the end of the queue name,
/// the retry seconds, and the start of the payload.
pub struct AddFields {
    pub name_end: usize,
    pub retry: u64,
    pub payload_start: usize,
}

/// Finds the fields of an `ADDJOB` argument, or `None` where one is missing
/// or the seconds are no number.
pub fn split_addjob(arg: &[u8]) -> (r: Option<AddFields>)
    ensures
        r.is_some() == parse_addjob(arg@).is_some(),
        r matches Some(f) ==> f.name_end < f.payload_start < arg@.len() && parse_addjob(arg@)
            == Some(
            AddArgs {
                queue: arg@.subrange(0, f.name_end as int),
                retry: f.retry,
                payload: arg@.subrange(f.payload_start as int, arg@.len() as int),
            },
        ),
{
    proof {
        assert(arg@.skip(0) =~= arg@);
    }
    let n = find_delimiter(arg, 0);
    if n == 0 || n >= arg.len() {
        return None;
    }
    let ghost rest = arg@.skip(n + 1);
    let e = find_delimiter(arg, n + 1);
    if e >= arg.len() || e + 1 >= arg.len() {
        proof {
            if e < arg.len() {
                assert(rest.skip(e - n).len() == 0);
            }
        }
        return None;
    }
    proof {
        assert(rest.take(e - n - 1) =~= arg@.subrange(n + 1, e as int));
        assert(rest.skip(e - n) =~= arg@.subrange(e + 1, arg@.len() as int));
        assert(arg@.take(n as int) =~= arg@.subrange(0, n as int));
    }
    match read_seconds(arg, n + 1, e) {
        Some(retry) => Some(AddFields { name_end: n, retry, payload_start: e + 1 }),
        None => None,
    }
}

impl QueueManager {
    /// The two maps are lists without repeated keys.
    pub closed spec fn rep(&self) -> bool {
        self.queues.wf() && self.reverse.wf()
    }

    /// The manager is sound: its maps are, and the index agrees with the
    /// queues.
    pub open spec fn wf(&self) -> bool {
        self.rep() && self@.wf()
    }

    /// A manager without queues.
    pub fn new() -> (m: Self)
        ensures
            m.wf(),
            m@ == ManagerView::empty(),
    {
        let m = QueueManager { queues: ByteMap::new(), reverse: ByteMap::new() };
        proof {
            assert(m@.queues =~= Map::<Seq<u8>, Seq<JobView>>::empty());
            assert(m@.reverse =~= Map::<Seq<u8>, Seq<u8>>::empty());
        }
        m
    }

    /// The reply to `QUIT`: status `0` and no data.
    pub fn handle_quit(&self, req: &Request) -> (r: Reply)
        ensures
            r@ == ReplyView::empty(req.token),
    {
        Reply::empty(req.token)
    }

    /// The reply to `HELLO`: status `0` and the data `Hello`.
    pub fn handle_hello(&self, req: &Request) -> (r: Reply)
        ensures
            r@ == ManagerView::hello_reply(req.token),
    {
        let mut data: Vec<u8> = Vec::new();
        data.push(0x48);
        data.push(0x65);
        data.push(0x6C);
        data.push(0x6C);
        data.push(0x6F);
        proof {
            assert(data@ =~= ManagerView::hello_reply(req.token).data);
        }
        Reply { token: req.token, status: 0, data }
    }

    /// Answers `STATQUE`: status `1` with the number of jobs and of leased
    /// jobs of the queue that the request names first, or status `0` with
    /// two zeros where there is no such queue.
    pub fn handle_statque(&self, req: &Request) -> (r: Reply)
        requires
            self.wf(),
        ensures
            r@ == self@.statque(req@),
    {
        let arg = req.arg.as_slice();
        proof {
            assert(arg@.skip(0) =~= arg@);
        }
        let found = match next_token(arg, 0) {
            Some((a, b)) => self.queues.position(slice_subrange(arg, a, b)),
            None => None,
        };
        let mut data: Vec<u8> = Vec::new();
        match found {
            Some(i) => {
                let q = self.queues.value_at(i);
                proof {
                    self.queues.lemma_index_of(i as int);
                }
                push_decimal(&mut data, q.len() as u64);
                data.push(DELIMITER);
                push_decimal(&mut data, q.running_jobs() as u64);
                proof {
                    assert(data@ =~= stat_data(q@.len(), leased_count(q@)));
                }
                Reply { token: req.token, status: 1, data }
            },
            None => {
                push_decimal(&mut data, 0);
                data.push(DELIMITER);
                push_decimal(&mut data, 0);
                proof {
                    assert(data@ =~= stat_data(0, 0));
                }
                Reply { token: req.token, status: 0, data }
            },
        }
    }

    /// Answers `ADDJOB` with the job created at `now` under the identifier
    /// `id`: status `1` with the identifier. The canonical error reply, and
    /// no change, where a field is missing, the seconds are no number, or
    /// `id` is already in use.
    pub fn handle_addjob_with(&mut self, req: &Request, id: JobId, now: u128) -> (r: Reply)
        requires
            old(self).wf(),
        ensures
            final(self).wf(),
            final(self)@ == old(self)@.addjob(req@, id@, now).0,
            r@ == old(self)@.addjob(req@, id@, now).1,
    {
        let arg = req.arg.as_slice();
        let fields = match split_addjob(arg) {
            Some(f) => f,
            None => {
                return Reply::error(req.token);
            },
        };
        if self.reverse.position(id.as_bytes()).is_some() {
            return Reply::error(req.token);
        }
        let name = copy_range(arg, 0, fields.name_end);
        let owner = copy_range(arg, 0, fields.name_end);
        let payload = copy_range(arg, fields.payload_start, arg.len());
        let key = copy_range(id.as_bytes(), 0, JOB_ID_SIZE);
        let data = copy_range(id.as_bytes(), 0, JOB_ID_SIZE);
        proof {
            assert(id@.subrange(0, JOB_ID_SIZE as int) =~= id@);
        }
        let job = Job::with_id(id, payload, fields.retry, now);
        let ghost jv = job@;
        proof {
            lemma_addjob_queue_is_word(arg@);
            lemma_add_job_wf(old(self)@, name@, jv);
        }
        match self.queues.position(name.as_slice()) {
            Some(i) => {
                proof {
                    self.queues.lemma_index_of(i as int);
                }
                let mut q = self.queues.replace_value(i, Queue::new());
                q.add(job);
                self.queues.set_value(i, q);
            },
            None => {
                let mut q = Queue::new();
                q.add(job);
                proof {
                    assert(q@ =~= old(self)@.jobs(name@).push(jv));
                }
                self.queues.insert(name, q);
            },
        }
        self.reverse.insert(key, owner);
        proof {
            let want = old(self)@.add_job(name@, jv);
            assert(self@.queues =~= want.queues);
            assert(self@.reverse =~= want.reverse);
        }
        Reply { token: req.token, status: 1, data }
    }

    /// Answers `ADDJOB` with a job created now under a fresh random
    /// identifier.
    pub fn handle_addjob(&mut self, req: &Request) -> (r: Reply)
        requires
            old(self).wf(),
        ensures
            final(self).wf(),
            exists|id: Seq<u8>, now: u128|
                is_job_id(id) && final(self)@ == #[trigger] old(self)@.addjob(req@, id, now).0 && r@
                    == old(self)@.addjob(req@, id, now).1,
    {
        let id = JobId::generate();
        let t = now();
        let ghost idv = id@;
        let r = self.handle_addjob_with(req, id, t);
        proof {
            assert(self@ == old(self)@.addjob(req@, idv, t).0);
        }
        r
    }

    /// Answers `GETJOB` at `now`: the queues that the request names are
    /// tried in order, and the first eligible job of the first queue that
    /// has one is leased and returned with status `1`, as its identifier, a
    /// space and its payload. Status `0` and no change where none has one.
    pub fn handle_getjob_at(&mut self, req: &Request, now: u128) -> (r: Reply)
        requires
            old(self).wf(),
        ensures
            final(self).wf(),
            final(self)@ == old(self)@.getjob(req@, now).0,
            r@ == old(self)@.getjob(req@, now).1,
    {
        let arg = req.arg.as_slice();
        let mut pos: usize = 0;
        proof {
            assert(arg@.skip(0) =~= arg@);
        }
        loop
            invariant
                pos <= arg@.len(),
                arg@ == req.arg@,
                self.wf(),
                self@ == old(self)@,
                old(self)@.lease(tokens(arg@), now) == self@.lease(tokens(arg@.skip(pos as int)), now),
            decreases arg@.len() - pos,
        {
            let (a, b) = match next_token(arg, pos) {
                Some(t) => t,
                None => {
                    return Reply::empty(req.token);
                },
            };
            let name = slice_subrange(arg, a, b);
            proof {
                let names = tokens(arg@.skip(pos as int));
                assert(names[0] == name@);
                assert(names.skip(1) =~= tokens(arg@.skip(b as int)));
            }
            match self.queues.position(name) {
                Some(i) => {
                    proof {
                        self.queues.lemma_index_of(i as int);
                    }
                    let ghost before = *self;
                    let mut q = self.queues.replace_value(i, Queue::new());
                    match q.lease_at(now) {
                        Some(k) => {
                            let job = q.job_at(k);
                            let mut data = copy_range(job.id.as_bytes(), 0, JOB_ID_SIZE);
                            data.push(DELIMITER);
                            data.extend_from_slice(job.job.as_slice());
                            proof {
                                assert(job.id@.subrange(0, JOB_ID_SIZE as int) =~= job.id@);
                                assert(data@ =~= job_data(job@));
                                lemma_lease_in_wf(before@, name@, now);
                            }
                            self.queues.set_value(i, q);
                            proof {
                                let want = before@.lease_in(name@, now);
                                assert(self@.queues =~= want.queues);
                                assert(self@.reverse =~= want.reverse);
                            }
                            return Reply { token: req.token, status: 1, data };
                        },
                        None => {
                            self.queues.set_value(i, q);
                            proof {
                                assert(self@.queues =~= before@.queues);
                                assert(self@.reverse =~= before@.reverse);
                            }
                        },
                    }
                },
                None => {},
            }
            pos = b;
        }
    }

    /// Answers `GETJOB` at the current time.
    pub fn handle_getjob(&mut self, req: &Request) -> (r: Reply)
        requires
            old(self).wf(),
        ensures
            final(self).wf(),
            exists|now: u128|
                final(self)@ == #[trigger] old(self)@.getjob(req@, now).0 && r@ == old(self)@.getjob(
                    req@,
                    now,
                ).1,
    {
        let t = now();
        let r = self.handle_getjob_at(req, t);
        proof {
            assert(self@ == old(self)@.getjob(req@, t).0);
        }
        r
    }

    /// Answers `ACKJOB`: each identifier that the request names is looked up
    /// in the index, and its job is removed from its queue and from the
    /// index. The status is the number of jobs removed.
    pub fn handle_ackjob(&mut self, req: &Request) -> (r: Reply)
        requires
            old(self).wf(),
        ensures
            final(self).wf(),
            final(self)@ == old(self)@.ackjob(req@).0,
            r@ == old(self)@.ackjob(req@).1,
    {
        let arg = req.arg.as_slice();
        let mut pos: usize = 0;
        let mut count: i64 = 0;
        proof {
            assert(arg@.skip(0) =~= arg@);
        }
        loop
            invariant
                pos <= arg@.len(),
                arg@ == req.arg@,
                self.wf(),
                0 <= count,
                count * 32 <= pos,
                old(self)@.ack_all(tokens(arg@)).0 == self@.ack_all(tokens(arg@.skip(pos as int))).0,
                old(self)@.ack_all(tokens(arg@)).1 == self@.ack_all(tokens(arg@.skip(pos as int))).1
                    + count,
            decreases arg@.len() - pos,
        {
            let (a, b) = match next_token(arg, pos) {
                Some(t) => t,
                None => {
                    return Reply { token: req.token, status: count, data: Vec::new() };
                },
            };
            let id = slice_subrange(arg, a, b);
            let ghost before = *self;
            proof {
                let ids = tokens(arg@.skip(pos as int));
                assert(ids[0] == id@);
                assert(ids.skip(1) =~= tokens(arg@.skip(b as int)));
                lemma_ack_one_wf(before@, id@);
            }
            match self.reverse.position(id) {
                Some(ri) => {
                    proof {
                        self.reverse.lemma_index_of(ri as int);
                    }
                    match self.queues.position(self.reverse.value_at(ri).as_slice()) {
                        Some(qi) => {
                            proof {
                                self.queues.lemma_index_of(qi as int);
                            }
                            let mut q = self.queues.replace_value(qi, Queue::new());
                            let hit = q.ack(id);
                            self.queues.set_value(qi, q);
                            if hit {
                                let _ = self.reverse.remove_at(ri);
                                count += 1;
                                proof {
                                    let want = before@.ack_one(id@);
                                    assert(self@.queues =~= want.queues);
                                    assert(self@.reverse =~= want.reverse);
                                }
                            } else {
                                proof {
                                    assert(self@.queues =~= before@.queues);
                                    assert(self@.reverse =~= before@.reverse);
                                }
                            }
                        },
                        None => {},
                    }
                },
                None => {},
            }
            pos = b;
        }
    }

    /// Answers `DELQUE`: the queue that the request names first is destroyed
    /// and each of its jobs leaves the index; status `1`. Status `0` and no
    /// change where there is no such queue.
    pub fn handle_delque(&mut self, req: &Request) -> (r: Reply)
        requires
            old(self).wf(),
        ensures
            final(self).wf(),
            final(self)@ == old(self)@.delque(req@).0,
            r@ == old(self)@.delque(req@).1,
    {
        let arg = req.arg.as_slice();
        proof {
            assert(arg@.skip(0) =~= arg@);
        }
        let found = match next_token(arg, 0) {
            Some((a, b)) => self.queues.position(slice_subrange(arg, a, b)),
            None => None,
        };
        let i = match found {
            Some(i) => i,
            None => {
                return Reply::empty(req.token);
            },
        };
        let ghost name = first_token(arg@).unwrap();
        proof {
            self.queues.lemma_index_of(i as int);
            lemma_delete_wf(old(self)@, name);
        }
        let mut q = self.queues.remove_at(i);
        let ghost jobs = q@;
        let ghost index = self.reverse@;
        let ghost rest = self.queues@;
        proof {
            assert(jobs == old(self)@.queues[name]);
            assert(rest == old(self).queues@.remove(name));
        }
        let mut k: usize = 0;
        while k < q.len()
            invariant
                k <= jobs.len(),
                q@ == jobs,
                self.reverse.wf(),
                self.queues.wf(),
                self.queues@ == rest,
                self.reverse@ == index.remove_keys(ids_of(jobs.take(k as int))),
            decreases jobs.len() - k,
        {
            let id = q.job_at(k).id.as_bytes();
            let ghost cur = self.reverse@;
            match self.reverse.position(id) {
                Some(ri) => {
                    proof {
                        self.reverse.lemma_index_of(ri as int);
                    }
                    let _ = self.reverse.remove_at(ri);
                },
                None => {},
            }
            proof {
                let done = ids_of(jobs.take(k as int));
                let next = ids_of(jobs.take(k + 1));
                assert(jobs.take(k + 1)[k as int] == jobs[k as int]);
                assert forall|x: Seq<u8>| next.contains(x) == (done.contains(x) || x == id@) by {
                    if next.contains(x) {
                        let j = choose|j: int|
                            0 <= j < jobs.take(k + 1).len() && (#[trigger] jobs.take(k + 1)[j]).id
                                == x;
                        if j < k {
                            assert(jobs.take(k as int)[j] == jobs[j]);
                        }
                    }
                    if done.contains(x) {
                        let j = choose|j: int|
                            0 <= j < jobs.take(k as int).len() && (#[trigger] jobs.take(
                                k as int,
                            )[j]).id == x;
                        assert(jobs.take(k + 1)[j] == jobs[j]);
                    }
                }
                assert(self.reverse@ =~= index.remove_keys(next));
            }
            k += 1;
        }
        q.clean();
        proof {
            assert(jobs.take(jobs.len() as int) =~= jobs);
            let want = old(self)@.delete(name);
            assert(self@.queues =~= want.queues);
            assert(self@.reverse =~= want.reverse);
        }
        Reply { token: req.token, status: 1, data: Vec::new() }
    }

    /// Answers a request with the fresh identifier `id` and the time `now`
    /// at hand, which `ADDJOB` and `GETJOB` work with. `TERMINATE` gets no
    /// reply; every other command gets exactly one.
    pub fn handle_with(&mut self, req: &Request, id: JobId, now: u128) -> (r: Option<Reply>)
        requires
            old(self).wf(),
        ensures
            final(self).wf(),
            final(self)@ == old(self)@.respond(req@, id@, now).0,
            r.is_some() == old(self)@.respond(req@, id@, now).1.is_some(),
            r matches Some(reply) ==> Some(reply@) == old(self)@.respond(req@, id@, now).1,
            r.is_none() == (req.cmd == Command::TERMINATE),
    {
        match req.cmd {
            Command::ADDJOB => Some(self.handle_addjob_with(req, id, now)),
            Command::GETJOB => Some(self.handle_getjob_at(req, now)),
            Command::ACKJOB => Some(self.handle_ackjob(req)),
            Command::STATQUE => Some(self.handle_statque(req)),
            Command::DELQUE => Some(self.handle_delque(req)),
            Command::TERMINATE => None,
            Command::QUIT => Some(self.handle_quit(req)),
            Command::HELLO => Some(self.handle_hello(req)),
        }
    }

    /// Answers a request, with a fresh random identifier and the current
    /// time at hand. `TERMINATE` gets no reply; every other command gets
    /// exactly one, addressed to the sender.
    pub fn handle(&mut self, req: &Request) -> (r: Option<Reply>)
        requires
            old(self).wf(),
        ensures
            final(self).wf(),
            r.is_none() == (req.cmd == Command::TERMINATE),
            exists|id: Seq<u8>, now: u128|
                is_job_id(id) && final(self)@ == #[trigger] old(self)@.respond(req@, id, now).0 && (
                r matches Some(reply) ==> Some(reply@) == old(self)@.respond(req@, id, now).1),
    {
        let id = JobId::generate();
        let t = now();
        let ghost idv = id@;
        let r = self.handle_with(req, id, t);
        proof {
            assert(self@ == old(self)@.respond(req@, idv, t).0);
        }
        r
    }
}

} // verus!
