//! The state of the queue manager as a mathematical value, and what each
//! command does to it.

use crate::command::Command;
use crate::decimal::{decimal, parse_seconds};
use crate::field::{field_len, first_token, is_word, lemma_field_len, tokens};
use crate::message::{ReplyView, RequestView};
use crate::queue::{
    first_eligible, is_job_id, leased_count, lemma_first_eligible, lemma_position_of, position_of,
    JobView,
};
use crate::utils::DELIMITER;
use vstd::prelude::*;

verus! {

/// The fields of an `ADDJOB` request.
pub struct AddArgs {
    pub queue: Seq<u8>,
    pub retry: u64,
    pub payload: Seq<u8>,
}

/// The fields of the argument of `ADDJOB`: the queue name up to the first
/// separator, the retry seconds up to the second, and the payload, which is
/// all that follows. Each must be there, and the seconds must be a number.
pub open spec fn parse_addjob(arg: Seq<u8>) -> Option<AddArgs> {
    let n = field_len(arg) as int;
    let rest = arg.skip(n + 1);
    let m = field_len(rest) as int;
    let payload = rest.skip(m + 1);
    if n == 0 || n >= arg.len() || m >= rest.len() || payload.len() == 0 {
        None
    } else {
        match parse_seconds(rest.take(m)) {
            Some(retry) => Some(AddArgs { queue: arg.take(n), retry, payload }),
            None => None,
        }
    }
}

/// The identifiers of the jobs of `q`.
pub open spec fn ids_of(q: Seq<JobView>) -> Set<Seq<u8>> {
    Set::new(|id: Seq<u8>| exists|i: int| 0 <= i < q.len() && (#[trigger] q[i]).id == id)
}

/// The data of a `GETJOB` reply: the identifier, a space and the payload.
pub open spec fn job_data(job: JobView) -> Seq<u8> {
    job.id + seq![DELIMITER] + job.job
}

/// The data of a `STATQUE` reply: the number of jobs, a space and the number
/// of leased jobs.
pub open spec fn stat_data(len: nat, leased: nat) -> Seq<u8> {
    decimal(len) + seq![DELIMITER] + decimal(leased)
}

/// The queues by name, and the index from job identifier to queue name.
pub struct ManagerView {
    pub queues: Map<Seq<u8>, Seq<JobView>>,
    pub reverse: Map<Seq<u8>, Seq<u8>>,
}

impl ManagerView {
    /// The state without queues.
    pub open spec fn empty() -> ManagerView {
        ManagerView { queues: Map::empty(), reverse: Map::empty() }
    }

    /// Every queue name is a word, and the index and the queues agree:
    /// every job is indexed under its queue, no queue holds an identifier
    /// twice, and every indexed identifier has the form of one and names a
    /// job of the queue it is indexed under.
    pub open spec fn wf(self) -> bool {
        &&& forall|n: Seq<u8>| #[trigger] self.queues.contains_key(n) ==> is_word(n)
        &&& forall|n: Seq<u8>, i: int|
            self.queues.contains_key(n) && 0 <= i < self.queues[n].len() ==> {
                &&& self.reverse.contains_key((#[trigger] self.queues[n][i]).id)
                &&& self.reverse[self.queues[n][i].id] == n
            }
        &&& forall|n: Seq<u8>, i: int, j: int|
            self.queues.contains_key(n) && 0 <= i < j < self.queues[n].len() ==> (
            #[trigger] self.queues[n][i]).id != (#[trigger] self.queues[n][j]).id
        &&& forall|id: Seq<u8>| #[trigger]
            self.reverse.contains_key(id) ==> {
                &&& is_job_id(id)
                &&& self.queues.contains_key(self.reverse[id])
                &&& position_of(self.queues[self.reverse[id]], id) < self.queues[self.reverse[id]].len()
            }
    }

    /// The jobs of the queue `name`; none where there is no such queue.
    pub open spec fn jobs(self, name: Seq<u8>) -> Seq<JobView> {
        if self.queues.contains_key(name) {
            self.queues[name]
        } else {
            Seq::empty()
        }
    }

    /// The state after `job` was appended to the queue `name`, which is
    /// created where it does not exist.
    pub open spec fn add_job(self, name: Seq<u8>, job: JobView) -> ManagerView {
        ManagerView {
            queues: self.queues.insert(name, self.jobs(name).push(job)),
            reverse: self.reverse.insert(job.id, name),
        }
    }

    /// Whether the queue `name` exists and holds a job that is eligible at
    /// `now`.
    pub open spec fn has_eligible(self, name: Seq<u8>, now: u128) -> bool {
        self.queues.contains_key(name) && first_eligible(self.queues[name], now)
            < self.queues[name].len()
    }

    /// The state after the first eligible job of the queue `name` was leased
    /// at `now`.
    pub open spec fn lease_in(self, name: Seq<u8>, now: u128) -> ManagerView {
        let q = self.queues[name];
        let i = first_eligible(q, now);
        ManagerView { queues: self.queues.insert(name, q.update(i, q[i].leased(now))), ..self }
    }

    /// The job that `lease_in` hands out, as it is after the lease.
    pub open spec fn leased_job(self, name: Seq<u8>, now: u128) -> JobView {
        let q = self.queues[name];
        q[first_eligible(q, now)].leased(now)
    }

    /// Leases the first eligible job of the first of `names` that has one:
    /// the state after it and the job, or the state as it is and nothing.
    pub open spec fn lease(self, names: Seq<Seq<u8>>, now: u128) -> (ManagerView, Option<JobView>)
        decreases names.len(),
    {
        if names.len() == 0 {
            (self, None)
        } else if self.has_eligible(names[0], now) {
            (self.lease_in(names[0], now), Some(self.leased_job(names[0], now)))
        } else {
            self.lease(names.skip(1), now)
        }
    }

    /// Whether `id` is indexed and its queue holds a job of that identifier.
    pub open spec fn can_ack(self, id: Seq<u8>) -> bool {
        &&& self.reverse.contains_key(id)
        &&& self.queues.contains_key(self.reverse[id])
        &&& position_of(self.queues[self.reverse[id]], id) < self.queues[self.reverse[id]].len()
    }

    /// The state after the job `id` was removed from its queue and from the
    /// index; the state as it is where there is no such job.
    pub open spec fn ack_one(self, id: Seq<u8>) -> ManagerView {
        if self.can_ack(id) {
            let n = self.reverse[id];
            let q = self.queues[n];
            ManagerView {
                queues: self.queues.insert(n, q.remove(position_of(q, id))),
                reverse: self.reverse.remove(id),
            }
        } else {
            self
        }
    }

    /// Acknowledges each of `ids` in turn: the state after them and the
    /// number of jobs removed.
    pub open spec fn ack_all(self, ids: Seq<Seq<u8>>) -> (ManagerView, nat)
        decreases ids.len(),
    {
        if ids.len() == 0 {
            (self, 0)
        } else {
            let rest = self.ack_one(ids[0]).ack_all(ids.skip(1));
            (
                rest.0,
                rest.1 + if self.can_ack(ids[0]) {
                    1nat
                } else {
                    0nat
                },
            )
        }
    }

    /// The state after the queue `name` was destroyed with all its jobs; the
    /// state as it is where there is no such queue.
    pub open spec fn delete(self, name: Seq<u8>) -> ManagerView {
        if self.queues.contains_key(name) {
            ManagerView {
                queues: self.queues.remove(name),
                reverse: self.reverse.remove_keys(ids_of(self.queues[name])),
            }
        } else {
            self
        }
    }

    /// The reply to `HELLO`.
    pub open spec fn hello_reply(token: usize) -> ReplyView {
        ReplyView { token, status: 0, data: seq![0x48u8, 0x65u8, 0x6Cu8, 0x6Cu8, 0x6Fu8] }
    }

    /// What `ADDJOB` does under the fresh identifier `id` at `now`. The
    /// request is refused where a field is missing or the seconds are no
    /// number, and where `id` is already in use.
    pub open spec fn addjob(self, req: RequestView, id: Seq<u8>, now: u128) -> (
        ManagerView,
        ReplyView,
    ) {
        match parse_addjob(req.arg) {
            Some(args) => if self.reverse.contains_key(id) {
                (self, ReplyView::error(req.token))
            } else {
                (
                    self.add_job(
                        args.queue,
                        JobView {
                            id,
                            job: args.payload,
                            retry: args.retry,
                            running: false,
                            start: now,
                        },
                    ),
                    ReplyView { token: req.token, status: 1, data: id },
                )
            },
            None => (self, ReplyView::error(req.token)),
        }
    }

    /// What `GETJOB` does at `now`: the queues are tried in the order in
    /// which the request names them.
    pub open spec fn getjob(self, req: RequestView, now: u128) -> (ManagerView, ReplyView) {
        let r = self.lease(tokens(req.arg), now);
        match r.1 {
            Some(job) => (r.0, ReplyView { token: req.token, status: 1, data: job_data(job) }),
            None => (r.0, ReplyView::empty(req.token)),
        }
    }

    /// What `ACKJOB` does: the status is the number of jobs removed.
    pub open spec fn ackjob(self, req: RequestView) -> (ManagerView, ReplyView) {
        let r = self.ack_all(tokens(req.arg));
        (r.0, ReplyView { token: req.token, status: r.1 as int, data: Seq::empty() })
    }

    /// The reply to `STATQUE`: the counts of the queue that the request
    /// names first, or status `0` with two zeros where there is none.
    pub open spec fn statque(self, req: RequestView) -> ReplyView {
        match first_token(req.arg) {
            Some(name) if self.queues.contains_key(name) => ReplyView {
                token: req.token,
                status: 1,
                data: stat_data(self.queues[name].len(), leased_count(self.queues[name])),
            },
            _ => ReplyView { token: req.token, status: 0, data: stat_data(0, 0) },
        }
    }

    /// What `DELQUE` does: status `1` where the queue that the request names
    /// first existed, status `0` otherwise.
    pub open spec fn delque(self, req: RequestView) -> (ManagerView, ReplyView) {
        match first_token(req.arg) {
            Some(name) if self.queues.contains_key(name) => (
                self.delete(name),
                ReplyView { token: req.token, status: 1, data: Seq::empty() },
            ),
            _ => (self, ReplyView::empty(req.token)),
        }
    }

    /// What a request does to the state, and the reply to it. `TERMINATE`
    /// gets none. `id` and `now` are the fresh identifier and the time that
    /// `ADDJOB` and `GETJOB` work with.
    pub open spec fn respond(self, req: RequestView, id: Seq<u8>, now: u128) -> (
        ManagerView,
        Option<ReplyView>,
    ) {
        match req.cmd {
            Command::TERMINATE => (self, None),
            Command::QUIT => (self, Some(ReplyView::empty(req.token))),
            Command::HELLO => (self, Some(Self::hello_reply(req.token))),
            Command::ADDJOB => {
                let r = self.addjob(req, id, now);
                (r.0, Some(r.1))
            },
            Command::GETJOB => {
                let r = self.getjob(req, now);
                (r.0, Some(r.1))
            },
            Command::ACKJOB => {
                let r = self.ackjob(req);
                (r.0, Some(r.1))
            },
            Command::STATQUE => (self, Some(self.statque(req))),
            Command::DELQUE => {
                let r = self.delque(req);
                (r.0, Some(r.1))
            },
        }
    }
}

/// A job with the identifier at position `i` puts `position_of` at or before `i`.
pub proof fn lemma_position_found(q: Seq<JobView>, id: Seq<u8>, i: int)
    requires
        0 <= i < q.len(),
        q[i].id == id,
    ensures
        0 <= position_of(q, id) <= i,
        q[position_of(q, id)].id == id,
{
    lemma_position_of(q, id);
    if position_of(q, id) > i {
        assert(q[i].id != id);
    }
}

/// The queue name of an `ADDJOB` argument is a word.
pub proof fn lemma_addjob_queue_is_word(arg: Seq<u8>)
    requires
        parse_addjob(arg).is_some(),
    ensures
        is_word(parse_addjob(arg).unwrap().queue),
{
    lemma_field_len(arg);
}

/// The state without queues is well-formed.
pub proof fn lemma_empty_wf()
    ensures
        ManagerView::empty().wf(),
{
}

/// Appending a job under an unused identifier keeps the state well-formed.
pub proof fn lemma_add_job_wf(v: ManagerView, name: Seq<u8>, job: JobView)
    requires
        v.wf(),
        is_word(name),
        is_job_id(job.id),
        !v.reverse.contains_key(job.id),
    ensures
        v.add_job(name, job).wf(),
{
    let w = v.add_job(name, job);
    let q = v.jobs(name);
    let q2 = q.push(job);
    assert(w.queues[name] == q2);
    assert forall|n: Seq<u8>, i: int| w.queues.contains_key(n) && 0 <= i < w.queues[n].len() implies {
        &&& w.reverse.contains_key((#[trigger] w.queues[n][i]).id)
        &&& w.reverse[w.queues[n][i].id] == n
    } by {
        if n == name {
            if i < q.len() {
                assert(q2[i] == v.queues[n][i]);
            }
        } else {
            assert(w.queues[n][i] == v.queues[n][i]);
        }
    }
    assert forall|n: Seq<u8>, i: int, j: int|
        w.queues.contains_key(n) && 0 <= i < j < w.queues[n].len() implies (
    #[trigger] w.queues[n][i]).id != (#[trigger] w.queues[n][j]).id by {
        if n == name {
            assert(q2[i] == v.queues[n][i]);
            if j < q.len() {
                assert(q2[j] == v.queues[n][j]);
            }
        } else {
            assert(w.queues[n][i] == v.queues[n][i]);
            assert(w.queues[n][j] == v.queues[n][j]);
        }
    }
    assert forall|id: Seq<u8>| #[trigger] w.reverse.contains_key(id) implies {
        &&& is_job_id(id)
        &&& w.queues.contains_key(w.reverse[id])
        &&& position_of(w.queues[w.reverse[id]], id) < w.queues[w.reverse[id]].len()
    } by {
        if id == job.id {
            lemma_position_found(q2, id, q.len() as int);
        } else {
            assert(v.reverse.contains_key(id));
            let n = v.reverse[id];
            if n == name {
                let p = position_of(q, id);
                lemma_position_of(q, id);
                assert(q2[p] == q[p]);
                lemma_position_found(q2, id, p);
            }
        }
    }
}

/// Leasing a job keeps the state well-formed and the index as it is.
pub proof fn lemma_lease_in_wf(v: ManagerView, name: Seq<u8>, now: u128)
    requires
        v.wf(),
        v.has_eligible(name, now),
    ensures
        v.lease_in(name, now).wf(),
        v.lease_in(name, now).reverse == v.reverse,
        v.lease_in(name, now).queues.dom() == v.queues.dom(),
{
    let w = v.lease_in(name, now);
    let q = v.queues[name];
    let k = first_eligible(q, now);
    lemma_first_eligible(q, now);
    let q2 = q.update(k, q[k].leased(now));
    assert(w.queues[name] == q2);
    assert(w.queues.dom() =~= v.queues.dom());
    assert forall|i: int| 0 <= i < q.len() implies (#[trigger] q2[i]).id == q[i].id by {}
    assert forall|n: Seq<u8>, i: int| w.queues.contains_key(n) && 0 <= i < w.queues[n].len() implies {
        &&& w.reverse.contains_key((#[trigger] w.queues[n][i]).id)
        &&& w.reverse[w.queues[n][i].id] == n
    } by {
        assert(w.queues[n][i].id == v.queues[n][i].id);
    }
    assert forall|n: Seq<u8>, i: int, j: int|
        w.queues.contains_key(n) && 0 <= i < j < w.queues[n].len() implies (
    #[trigger] w.queues[n][i]).id != (#[trigger] w.queues[n][j]).id by {
        assert(w.queues[n][i].id == v.queues[n][i].id);
        assert(w.queues[n][j].id == v.queues[n][j].id);
    }
    assert forall|id: Seq<u8>| #[trigger] w.reverse.contains_key(id) implies {
        &&& is_job_id(id)
        &&& w.queues.contains_key(w.reverse[id])
        &&& position_of(w.queues[w.reverse[id]], id) < w.queues[w.reverse[id]].len()
    } by {
        let n = v.reverse[id];
        if n == name {
            let p = position_of(q, id);
            lemma_position_of(q, id);
            assert(q2[p].id == q[p].id);
            lemma_position_found(q2, id, p);
        }
    }
}

/// `GETJOB` keeps the state well-formed, and changes neither the index nor
/// the set of queues.
pub proof fn lemma_lease_wf(v: ManagerView, names: Seq<Seq<u8>>, now: u128)
    requires
        v.wf(),
    ensures
        v.lease(names, now).0.wf(),
        v.lease(names, now).0.reverse == v.reverse,
        v.lease(names, now).0.queues.dom() == v.queues.dom(),
        v.lease(names, now).1.is_none() ==> v.lease(names, now).0 == v,
    decreases names.len(),
{
    if names.len() == 0 {
    } else if v.has_eligible(names[0], now) {
        lemma_lease_in_wf(v, names[0], now);
    } else {
        lemma_lease_wf(v, names.skip(1), now);
    }
}

/// In a well-formed state a job can be acknowledged exactly when its
/// identifier is indexed.
pub proof fn lemma_can_ack(v: ManagerView, id: Seq<u8>)
    requires
        v.wf(),
    ensures
        v.can_ack(id) == v.reverse.contains_key(id),
{
}

/// Acknowledging a job keeps the state well-formed.
pub proof fn lemma_ack_one_wf(v: ManagerView, id: Seq<u8>)
    requires
        v.wf(),
    ensures
        v.ack_one(id).wf(),
        !v.ack_one(id).reverse.contains_key(id),
        v.ack_one(id).queues.dom() == v.queues.dom(),
{
    if v.can_ack(id) {
        let w = v.ack_one(id);
        let name = v.reverse[id];
        let q = v.queues[name];
        let p = position_of(q, id);
        lemma_position_of(q, id);
        let q2 = q.remove(p);
        assert(w.queues[name] == q2);
        assert(w.queues.dom() =~= v.queues.dom());
        assert forall|i: int| 0 <= i < q2.len() implies (#[trigger] q2[i]).id != id by {
            if i < p {
                assert(q2[i] == q[i]);
            } else {
                assert(q2[i] == q[i + 1]);
                assert(q[p].id != q[i + 1].id);
            }
        }
        assert forall|n: Seq<u8>, i: int|
            w.queues.contains_key(n) && 0 <= i < w.queues[n].len() implies {
            &&& w.reverse.contains_key((#[trigger] w.queues[n][i]).id)
            &&& w.reverse[w.queues[n][i].id] == n
        } by {
            if n == name {
                if i < p {
                    assert(q2[i] == v.queues[n][i]);
                } else {
                    assert(q2[i] == v.queues[n][i + 1]);
                }
            } else {
                assert(w.queues[n][i] == v.queues[n][i]);
            }
        }
        assert forall|n: Seq<u8>, i: int, j: int|
            w.queues.contains_key(n) && 0 <= i < j < w.queues[n].len() implies (
        #[trigger] w.queues[n][i]).id != (#[trigger] w.queues[n][j]).id by {
            if n == name {
                let i0 = if i < p { i } else { i + 1 };
                let j0 = if j < p { j } else { j + 1 };
                assert(q2[i] == v.queues[n][i0]);
                assert(q2[j] == v.queues[n][j0]);
            } else {
                assert(w.queues[n][i] == v.queues[n][i]);
                assert(w.queues[n][j] == v.queues[n][j]);
            }
        }
        assert forall|other: Seq<u8>| #[trigger] w.reverse.contains_key(other) implies {
            &&& is_job_id(other)
            &&& w.queues.contains_key(w.reverse[other])
            &&& position_of(w.queues[w.reverse[other]], other) < w.queues[w.reverse[other]].len()
        } by {
            assert(v.reverse.contains_key(other));
            let n = v.reverse[other];
            if n == name {
                let k = position_of(q, other);
                lemma_position_of(q, other);
                let k2 = if k < p { k } else { k - 1 };
                assert(q2[k2] == q[k]);
                lemma_position_found(q2, other, k2);
            }
        }
    }
}

/// `ACKJOB` keeps the state well-formed and the set of queues as it is.
pub proof fn lemma_ack_all_wf(v: ManagerView, ids: Seq<Seq<u8>>)
    requires
        v.wf(),
    ensures
        v.ack_all(ids).0.wf(),
        v.ack_all(ids).0.queues.dom() == v.queues.dom(),
    decreases ids.len(),
{
    if ids.len() > 0 {
        lemma_ack_one_wf(v, ids[0]);
        lemma_ack_all_wf(v.ack_one(ids[0]), ids.skip(1));
    }
}

/// Destroying a queue keeps the state well-formed.
pub proof fn lemma_delete_wf(v: ManagerView, name: Seq<u8>)
    requires
        v.wf(),
    ensures
        v.delete(name).wf(),
        !v.delete(name).queues.contains_key(name),
{
    if v.queues.contains_key(name) {
        let w = v.delete(name);
        let q = v.queues[name];
        assert forall|n: Seq<u8>, i: int|
            w.queues.contains_key(n) && 0 <= i < w.queues[n].len() implies {
            &&& w.reverse.contains_key((#[trigger] w.queues[n][i]).id)
            &&& w.reverse[w.queues[n][i].id] == n
        } by {
            let id = v.queues[n][i].id;
            if ids_of(q).contains(id) {
                let k = choose|k: int| 0 <= k < q.len() && (#[trigger] q[k]).id == id;
                assert(v.reverse[q[k].id] == name);
            }
        }
        assert forall|id: Seq<u8>| #[trigger] w.reverse.contains_key(id) implies {
            &&& is_job_id(id)
            &&& w.queues.contains_key(w.reverse[id])
            &&& position_of(w.queues[w.reverse[id]], id) < w.queues[w.reverse[id]].len()
        } by {
            assert(v.reverse.contains_key(id));
            let n = v.reverse[id];
            if n == name {
                lemma_position_of(q, id);
                assert(q[position_of(q, id)].id == id);
                assert(ids_of(q).contains(id));
            }
        }
    }
}

/// Every request keeps the state well-formed.
pub proof fn lemma_respond_wf(v: ManagerView, req: RequestView, id: Seq<u8>, now: u128)
    requires
        v.wf(),
        is_job_id(id),
    ensures
        v.respond(req, id, now).0.wf(),
{
    match req.cmd {
        Command::ADDJOB => {
            match parse_addjob(req.arg) {
                Some(args) => {
                    lemma_addjob_queue_is_word(req.arg);
                    if !v.reverse.contains_key(id) {
                        lemma_add_job_wf(
                            v,
                            args.queue,
                            JobView {
                                id,
                                job: args.payload,
                                retry: args.retry,
                                running: false,
                                start: now,
                            },
                        );
                    }
                },
                None => {},
            }
        },
        Command::GETJOB => {
            lemma_lease_wf(v, tokens(req.arg), now);
        },
        Command::ACKJOB => {
            lemma_ack_all_wf(v, tokens(req.arg));
        },
        Command::DELQUE => {
            match first_token(req.arg) {
                Some(name) => {
                    lemma_delete_wf(v, name);
                },
                None => {},
            }
        },
        _ => {},
    }
}

} // verus!
