//! What holds of the queue manager and the front end in every state.

use crate::decimal::{
    decimal, is_digit, lemma_decimal_digits, lemma_decimal_round_trip, parse_seconds, unsigned_part,
};
use crate::field::{first_token, is_word, lemma_field_len_is, tokens};
use crate::command::Command;
use crate::message::{ReplyView, RequestView, TERMINATION};
use crate::model::{
    ids_of, job_data, lemma_add_job_wf, lemma_addjob_queue_is_word, lemma_delete_wf,
    lemma_lease_in_wf, lemma_lease_wf, lemma_respond_wf, parse_addjob, stat_data, AddArgs,
    ManagerView,
};
use crate::queue::{
    is_job_id, leased_count, lemma_first_eligible_is, lemma_leased_count_bound, lemma_position_of,
    lemma_position_of_is, position_of, JobView, NANOS_PER_SEC,
};
use crate::server::{
    successor, ActionView, ConnectionView, Interest, ReadEventView, ServerView, WriteEvent,
    MAX_BUFFER_SIZE, START_POINT,
};
use crate::utils::DELIMITER;
use vstd::prelude::*;

verus! {

/// Every identifier in the index belongs to exactly one job: its queue
/// exists and holds a job of that identifier, and a job of that identifier
/// in any queue is that one.
pub proof fn lemma_indexed_in_one_queue(v: ManagerView, id: Seq<u8>)
    requires
        v.wf(),
        v.reverse.contains_key(id),
    ensures
        v.queues.contains_key(v.reverse[id]),
        0 <= position_of(v.queues[v.reverse[id]], id) < v.queues[v.reverse[id]].len(),
        v.queues[v.reverse[id]][position_of(v.queues[v.reverse[id]], id)].id == id,
        forall|n: Seq<u8>, i: int|
            v.queues.contains_key(n) && 0 <= i < v.queues[n].len() && (#[trigger] v.queues[n][i]).id
                == id ==> n == v.reverse[id] && i == position_of(v.queues[v.reverse[id]], id),
{
    let owner = v.reverse[id];
    let q = v.queues[owner];
    let p = position_of(q, id);
    lemma_position_of(q, id);
    assert forall|n: Seq<u8>, i: int|
        v.queues.contains_key(n) && 0 <= i < v.queues[n].len() && (#[trigger] v.queues[n][i]).id
            == id implies n == owner && i == p by {
        assert(v.reverse[v.queues[n][i].id] == n);
        if i < p {
            assert(q[i].id != id);
        } else if p < i {
            assert(q[p].id != q[i].id);
        }
    }
}

/// A queue that is destroyed takes its identifiers out of the index: none
/// that belonged to it is left, and none that is left belongs to it.
pub proof fn lemma_delete_clears_index(v: ManagerView, name: Seq<u8>)
    requires
        v.wf(),
    ensures
        forall|id: Seq<u8>|
            v.reverse.contains_key(id) && v.reverse[id] == name ==> !(#[trigger] v.delete(
                name,
            ).reverse.contains_key(id)),
        forall|id: Seq<u8>| #[trigger]
            v.delete(name).reverse.contains_key(id) ==> v.delete(name).reverse[id] != name,
        forall|i: int|
            0 <= i < v.jobs(name).len() ==> !v.delete(name).reverse.contains_key(
                (#[trigger] v.jobs(name)[i]).id,
            ),
{
    if v.queues.contains_key(name) {
        let q = v.queues[name];
        assert forall|id: Seq<u8>| v.reverse.contains_key(id) && v.reverse[id] == name implies !(
        #[trigger] v.delete(name).reverse.contains_key(id)) by {
            lemma_position_of(q, id);
            assert(q[position_of(q, id)].id == id);
            assert(ids_of(q).contains(id));
        }
        assert forall|i: int| 0 <= i < v.jobs(name).len() implies !v.delete(
            name,
        ).reverse.contains_key((#[trigger] v.jobs(name)[i]).id) by {
            assert(ids_of(q).contains(q[i].id));
        }
    }
}

/// No more jobs of a queue are leased than it holds, and `STATQUE` reports
/// these two numbers.
pub proof fn lemma_statque_counts(v: ManagerView, req: RequestView)
    ensures
        exists|len: nat, leased: nat|
            len >= leased && #[trigger] stat_data(len, leased) == v.statque(req).data,
{
    match first_token(req.arg) {
        Some(name) => {
            if v.queues.contains_key(name) {
                lemma_leased_count_bound(v.queues[name]);
                assert(stat_data(v.queues[name].len(), leased_count(v.queues[name])) == v.statque(
                    req,
                ).data);
            } else {
                assert(stat_data(0, 0) == v.statque(req).data);
            }
        },
        None => {
            assert(stat_data(0, 0) == v.statque(req).data);
        },
    }
}

/// A leased job is eligible again exactly when more nanoseconds have passed
/// since the lease than its retry interval holds.
pub proof fn lemma_lease_expiry(job: JobView, leased_at: u128, now: u128)
    ensures
        job.leased(leased_at).running,
        job.leased(leased_at).eligible(now) <==> now as int - leased_at as int > job.retry as int
            * NANOS_PER_SEC as int,
{
}

/// `GETJOB` takes its job from the first named queue that has an eligible
/// one, and that job is the first eligible one of the queue.
pub proof fn lemma_lease_first(v: ManagerView, names: Seq<Seq<u8>>, now: u128, k: int)
    requires
        0 <= k < names.len(),
        v.has_eligible(names[k], now),
        forall|j: int| 0 <= j < k ==> !v.has_eligible(#[trigger] names[j], now),
    ensures
        v.lease(names, now) == (
            v.lease_in(names[k], now),
            Some(v.leased_job(names[k], now)),
        ),
    decreases k,
{
    if k > 0 {
        assert(!v.has_eligible(names[0], now));
        let rest = names.skip(1);
        assert(rest[k - 1] == names[k]);
        assert forall|j: int| 0 <= j < k - 1 implies !v.has_eligible(#[trigger] rest[j], now) by {
            assert(rest[j] == names[j + 1]);
        }
        lemma_lease_first(v, rest, now, k - 1);
    }
}

/// `GETJOB` returns nothing and changes nothing where none of the named
/// queues has an eligible job.
pub proof fn lemma_lease_none(v: ManagerView, names: Seq<Seq<u8>>, now: u128)
    requires
        forall|j: int| 0 <= j < names.len() ==> !v.has_eligible(#[trigger] names[j], now),
    ensures
        v.lease(names, now) == (v, None::<JobView>),
    decreases names.len(),
{
    if names.len() > 0 {
        assert(!v.has_eligible(names[0], now));
        let rest = names.skip(1);
        assert forall|j: int| 0 <= j < rest.len() implies !v.has_eligible(#[trigger] rest[j], now) by {
            assert(rest[j] == names[j + 1]);
        }
        lemma_lease_none(v, rest, now);
    }
}

/// The id counter wraps from the largest value to `START_POINT`, and from
/// `START_POINT` on it never reaches the ids of the listener and the waker.
pub proof fn lemma_successor(t: usize)
    ensures
        successor(usize::MAX) == START_POINT,
        t >= START_POINT ==> successor(t) >= START_POINT,
        t < usize::MAX ==> successor(t) == t + 1,
{
}

/// Bytes that would take the accumulator over its limit are refused: the
/// accumulator is emptied, the canonical error reply is staged, and the
/// connection stays in the table.
pub proof fn lemma_oversize_refused(v: ServerView, token: usize, chunk: Seq<u8>)
    requires
        v.connections.contains_key(token),
        0 < chunk.len(),
        chunk.len() + v.connections[token].received_data.len() > MAX_BUFFER_SIZE,
    ensures
        v.on_read(token, ReadEventView::Bytes(chunk)) == (
            v.with(token, ConnectionView::refused(token)),
            ActionView::Arm(Interest::Writable),
        ),
        v.on_read(token, ReadEventView::Bytes(chunk)).0.connections.contains_key(token),
{
}

/// Bytes that keep the accumulator within its limit are never refused for
/// their number: where they do not end a line they are kept for the next
/// read.
pub proof fn lemma_within_limit_kept(v: ServerView, token: usize, chunk: Seq<u8>)
    requires
        v.connections.contains_key(token),
        0 < chunk.len(),
        chunk.len() + v.connections[token].received_data.len() <= MAX_BUFFER_SIZE,
        chunk.last() != TERMINATION,
    ensures
        v.on_read(token, ReadEventView::Bytes(chunk)) == (
            v.with(
                token,
                ConnectionView {
                    received_data: v.connections[token].received_data + chunk,
                    ..v.connections[token]
                },
            ),
            ActionView::Arm(Interest::Readable),
        ),
{
    let data = v.connections[token].received_data + chunk;
    assert(data.last() == chunk.last());
}

/// A reply reaches the connection it is addressed to where that is open,
/// and is dropped without a trace where it is not.
pub proof fn lemma_reply_delivered_or_dropped(v: ServerView, reply: ReplyView)
    ensures
        v.connections.contains_key(reply.token) ==> v.on_reply(reply).0.connections[reply.token].reply
            == reply.wire() && v.on_reply(reply).1 == ActionView::Arm(Interest::Writable),
        !v.connections.contains_key(reply.token) ==> v.on_reply(reply) == (v, ActionView::Keep),
{
}

/// The argument of `ADDJOB` for the queue `q`, `retry` seconds and the
/// payload `p`.
pub open spec fn addjob_arg(q: Seq<u8>, retry: u64, p: Seq<u8>) -> Seq<u8> {
    q + seq![DELIMITER] + decimal(retry as nat) + seq![DELIMITER] + p
}

/// The bytes `1 0 0` and the terminator.
pub open spec fn wire_1_0_0() -> Seq<u8> {
    seq![0x31u8, 0x20u8, 0x30u8, 0x20u8, 0x30u8, 0x0Au8]
}

/// The bytes `1 1 0` and the terminator.
pub open spec fn wire_1_1_0() -> Seq<u8> {
    seq![0x31u8, 0x20u8, 0x31u8, 0x20u8, 0x30u8, 0x0Au8]
}

/// The bytes `1 1 1` and the terminator.
pub open spec fn wire_1_1_1() -> Seq<u8> {
    seq![0x31u8, 0x20u8, 0x31u8, 0x20u8, 0x31u8, 0x0Au8]
}

/// The bytes `0 ` and the terminator.
pub open spec fn wire_0() -> Seq<u8> {
    seq![0x30u8, 0x20u8, 0x0Au8]
}

/// The bytes `1 ` and the terminator.
pub open spec fn wire_1() -> Seq<u8> {
    seq![0x31u8, 0x20u8, 0x0Au8]
}

/// A word is its own single token.
pub proof fn lemma_word_tokens(w: Seq<u8>)
    requires
        is_word(w),
    ensures
        tokens(w) == seq![w],
        first_token(w) == Some(w),
{
    lemma_field_len_is(w, w.len() as int);
    assert(w.take(w.len() as int) =~= w);
    assert(tokens(w.skip(w.len() as int)) =~= Seq::<Seq<u8>>::empty());
    assert(tokens(w) =~= seq![w]);
}

/// A job identifier is a word.
pub proof fn lemma_job_id_is_word(id: Seq<u8>)
    requires
        is_job_id(id),
    ensures
        is_word(id),
{
}

/// The seconds that were written are the seconds that are read.
pub proof fn lemma_seconds_round_trip(retry: u64)
    ensures
        parse_seconds(decimal(retry as nat)) == Some(retry),
        is_word(decimal(retry as nat)),
{
    let d = decimal(retry as nat);
    lemma_decimal_digits(retry as nat);
    lemma_decimal_round_trip(retry as nat);
    assert(is_digit(d[0]));
    assert(unsigned_part(d) == d);
    assert forall|i: int| 0 <= i < d.len() implies d[i] != DELIMITER by {
        assert(is_digit(d[i]));
    }
}

/// An `ADDJOB` argument that is put together from a queue name, seconds and
/// a payload is taken apart into the same three.
pub proof fn lemma_addjob_round_trip(q: Seq<u8>, retry: u64, p: Seq<u8>)
    requires
        is_word(q),
        p.len() > 0,
    ensures
        parse_addjob(addjob_arg(q, retry, p)) == Some(AddArgs { queue: q, retry, payload: p }),
{
    let d = decimal(retry as nat);
    let arg = addjob_arg(q, retry, p);
    lemma_seconds_round_trip(retry);
    let n = q.len() as int;
    assert forall|i: int| 0 <= i < n implies arg[i] != DELIMITER by {
        assert(arg[i] == q[i]);
    }
    assert(arg[n] == DELIMITER);
    lemma_field_len_is(arg, n);
    let rest = arg.skip(n + 1);
    assert(rest =~= d + seq![DELIMITER] + p);
    let m = d.len() as int;
    assert forall|i: int| 0 <= i < m implies rest[i] != DELIMITER by {
        assert(rest[i] == d[i]);
    }
    assert(rest[m] == DELIMITER);
    lemma_field_len_is(rest, m);
    assert(rest.take(m) =~= d);
    assert(rest.skip(m + 1) =~= p);
    assert(arg.take(n) =~= q);
}

/// The state after one job was added to a queue that held none.
proof fn lemma_after_add(
    v: ManagerView,
    token: usize,
    q: Seq<u8>,
    retry: u64,
    p: Seq<u8>,
    id: Seq<u8>,
    now: u128,
) -> (s: ManagerView)
    requires
        v.wf(),
        is_job_id(id),
        !v.reverse.contains_key(id),
        is_word(q),
        p.len() > 0,
        v.jobs(q).len() == 0,
    ensures
        s == v.addjob(
            RequestView { token, cmd: Command::ADDJOB, arg: addjob_arg(q, retry, p) },
            id,
            now,
        ).0,
        v.addjob(
            RequestView { token, cmd: Command::ADDJOB, arg: addjob_arg(q, retry, p) },
            id,
            now,
        ).1 == (ReplyView { token, status: 1, data: id }),
        s.wf(),
        s.queues.contains_key(q),
        s.queues[q] == seq![JobView { id, job: p, retry, running: false, start: now }],
        s.reverse.contains_key(id),
        s.reverse[id] == q,
{
    lemma_addjob_round_trip(q, retry, p);
    let job = JobView { id, job: p, retry, running: false, start: now };
    lemma_add_job_wf(v, q, job);
    let s = v.add_job(q, job);
    assert(v.jobs(q) =~= Seq::<JobView>::empty());
    assert(s.queues[q] =~= seq![job]);
    s
}

/// The state after the only job of a queue was leased.
proof fn lemma_after_get(s: ManagerView, token: usize, q: Seq<u8>, job: JobView, now: u128) -> (t:
    ManagerView)
    requires
        s.wf(),
        is_word(q),
        s.queues.contains_key(q),
        s.queues[q] == seq![job],
        !job.running,
    ensures
        t == s.getjob(RequestView { token, cmd: Command::GETJOB, arg: q }, now).0,
        s.getjob(RequestView { token, cmd: Command::GETJOB, arg: q }, now).1 == (
            ReplyView { token, status: 1, data: job_data(job.leased(now)) }
        ),
        t.wf(),
        t.reverse == s.reverse,
        t.queues.contains_key(q),
        t.queues[q] == seq![job.leased(now)],
{
    lemma_word_tokens(q);
    lemma_first_eligible_is(s.queues[q], now, 0);
    assert(s.has_eligible(q, now));
    lemma_lease_first(s, seq![q], now, 0);
    lemma_lease_in_wf(s, q, now);
    let t = s.lease_in(q, now);
    assert(t.queues[q] =~= seq![job.leased(now)]);
    t
}

/// `STATQUE` on a queue reports its two counts with status `1`.
proof fn lemma_stat_of(s: ManagerView, token: usize, q: Seq<u8>)
    requires
        is_word(q),
        s.queues.contains_key(q),
    ensures
        s.statque(RequestView { token, cmd: Command::STATQUE, arg: q }) == (
            ReplyView {
                token,
                status: 1,
                data: stat_data(s.queues[q].len(), leased_count(s.queues[q])),
            }
        ),
{
    lemma_word_tokens(q);
}

/// The wire form of a `STATQUE` reply with status `1` and small counts.
proof fn lemma_stat_wire(token: usize, len: nat, leased: nat)
    requires
        len < 10,
        leased < 10,
    ensures
        (ReplyView { token, status: 1, data: stat_data(len, leased) }).wire() == seq![
            0x31u8,
            0x20u8,
            (0x30 + len) as u8,
            0x20u8,
            (0x30 + leased) as u8,
            0x0Au8,
        ],
{
    assert(decimal(1) =~= seq![0x31u8]);
    assert(decimal(len) =~= seq![(0x30 + len) as u8]);
    assert(decimal(leased) =~= seq![(0x30 + leased) as u8]);
    assert((ReplyView { token, status: 1, data: stat_data(len, leased) }).wire() =~= seq![
        0x31u8,
        0x20u8,
        (0x30 + len) as u8,
        0x20u8,
        (0x30 + leased) as u8,
        0x0Au8,
    ]);
}

/// After `ADDJOB` to a queue that held no job, `STATQUE` answers `1 1 0`:
/// one job, none leased.
pub proof fn lemma_add_stat(
    v: ManagerView,
    token: usize,
    q: Seq<u8>,
    retry: u64,
    p: Seq<u8>,
    id: Seq<u8>,
    now: u128,
)
    requires
        v.wf(),
        is_job_id(id),
        !v.reverse.contains_key(id),
        is_word(q),
        p.len() > 0,
        v.jobs(q).len() == 0,
    ensures
        v.addjob(
            RequestView { token, cmd: Command::ADDJOB, arg: addjob_arg(q, retry, p) },
            id,
            now,
        ).0.statque(
            RequestView { token, cmd: Command::STATQUE, arg: q },
        ).wire() == wire_1_1_0(),
{
    let s = lemma_after_add(v, token, q, retry, p, id, now);
    lemma_stat_of(s, token, q);
    let job = JobView { id, job: p, retry, running: false, start: now };
    assert(seq![job].drop_last() =~= Seq::<JobView>::empty());
    assert(leased_count(seq![job]) == 0) by {
        assert(leased_count(seq![job].drop_last()) == 0);
    }
    lemma_stat_wire(token, 1, 0);
}

/// After `ADDJOB` to a queue that held no job and `GETJOB` on it, which
/// returns that job, `STATQUE` answers `1 1 1`: one job, and it is leased.
pub proof fn lemma_add_get_stat(
    v: ManagerView,
    token: usize,
    q: Seq<u8>,
    retry: u64,
    p: Seq<u8>,
    id: Seq<u8>,
    now: u128,
    later: u128,
)
    requires
        v.wf(),
        is_job_id(id),
        !v.reverse.contains_key(id),
        is_word(q),
        p.len() > 0,
        v.jobs(q).len() == 0,
    ensures
        ({
            let s = v.addjob(
                RequestView {
                    token,
                    cmd: Command::ADDJOB,
                    arg: addjob_arg(q, retry, p),
                },
                id,
                now,
            ).0;
            let g = s.getjob(
                RequestView { token, cmd: Command::GETJOB, arg: q },
                later,
            );
            &&& g.1.status == 1
            &&& g.1.data == id + seq![DELIMITER] + p
            &&& g.0.statque(
                RequestView { token, cmd: Command::STATQUE, arg: q },
            ).wire() == wire_1_1_1()
        }),
{
    let s = lemma_after_add(v, token, q, retry, p, id, now);
    let job = JobView { id, job: p, retry, running: false, start: now };
    let t = lemma_after_get(s, token, q, job, later);
    lemma_stat_of(t, token, q);
    let held = job.leased(later);
    assert(seq![held].drop_last() =~= Seq::<JobView>::empty());
    assert(leased_count(seq![held]) == 1) by {
        assert(leased_count(seq![held].drop_last()) == 0);
    }
    lemma_stat_wire(token, 1, 1);
}

/// After `ADDJOB` to a queue that held no job, `GETJOB` on it and `ACKJOB`
/// of the identifier, which removes one job, `STATQUE` answers `1 0 0`: the
/// queue is still there, and it is empty.
pub proof fn lemma_add_get_ack_stat(
    v: ManagerView,
    token: usize,
    q: Seq<u8>,
    retry: u64,
    p: Seq<u8>,
    id: Seq<u8>,
    now: u128,
    later: u128,
)
    requires
        v.wf(),
        is_job_id(id),
        !v.reverse.contains_key(id),
        is_word(q),
        p.len() > 0,
        v.jobs(q).len() == 0,
    ensures
        ({
            let s = v.addjob(
                RequestView {
                    token,
                    cmd: Command::ADDJOB,
                    arg: addjob_arg(q, retry, p),
                },
                id,
                now,
            ).0;
            let g = s.getjob(
                RequestView { token, cmd: Command::GETJOB, arg: q },
                later,
            );
            let a = g.0.ackjob(RequestView { token, cmd: Command::ACKJOB, arg: id });
            &&& a.1.status == 1
            &&& a.1.wire() == wire_1()
            &&& !a.0.reverse.contains_key(id)
            &&& a.0.statque(
                RequestView { token, cmd: Command::STATQUE, arg: q },
            ).wire() == wire_1_0_0()
        }),
{
    let s = lemma_after_add(v, token, q, retry, p, id, now);
    let job = JobView { id, job: p, retry, running: false, start: now };
    let t = lemma_after_get(s, token, q, job, later);
    let held = job.leased(later);
    lemma_job_id_is_word(id);
    lemma_word_tokens(id);
    lemma_position_of_is(t.queues[q], id, 0);
    assert(t.can_ack(id));
    let u = t.ack_one(id);
    assert(seq![id].skip(1) =~= Seq::<Seq<u8>>::empty());
    assert(u.ack_all(seq![id].skip(1)) == (u, 0nat));
    assert(t.ack_all(seq![id]) == (u, 1nat));
    assert(u.queues[q] =~= Seq::<JobView>::empty());
    lemma_stat_of(u, token, q);
    lemma_stat_wire(token, 0, 0);
    let r = ReplyView { token, status: 1, data: Seq::<u8>::empty() };
    assert(decimal(1) =~= seq![0x31u8]);
    assert(r.wire() =~= wire_1());
}

/// `DELQUE` is idempotent: a second one finds no queue, changes nothing
/// and answers `0 ` and the terminator. The first one answers with status
/// `1` exactly where the queue existed.
pub proof fn lemma_delque_twice(v: ManagerView, req: RequestView)
    requires
        v.wf(),
    ensures
        v.delque(req).0.delque(req).0 == v.delque(req).0,
        v.delque(req).0.delque(req).1 == ReplyView::empty(req.token),
        ReplyView::empty(req.token).wire() == wire_0(),
        v.delque(req).1.status == 1 <==> first_token(req.arg).is_some() && v.queues.contains_key(
            first_token(req.arg).unwrap(),
        ),
{
    assert(decimal(0) =~= seq![0x30u8]);
    assert(ReplyView::empty(req.token).wire() =~= wire_0());
    match first_token(req.arg) {
        Some(name) => {
            lemma_delete_wf(v, name);
        },
        None => {},
    }
}

/// A request with the fresh identifier and the time that it is answered
/// with.
pub struct Step {
    pub req: RequestView,
    pub id: Seq<u8>,
    pub now: u128,
}

/// The state after the request of `step` was answered.
pub open spec fn after(v: ManagerView, step: Step) -> ManagerView {
    v.respond(step.req, step.id, step.now).0
}

/// The state after the requests of `steps` were answered in order.
pub open spec fn run(v: ManagerView, steps: Seq<Step>) -> ManagerView
    decreases steps.len(),
{
    if steps.len() == 0 {
        v
    } else {
        run(after(v, steps[0]), steps.skip(1))
    }
}

/// Whether every step brings an identifier of the right form.
pub open spec fn fresh_ids_formed(steps: Seq<Step>) -> bool {
    forall|i: int| 0 <= i < steps.len() ==> is_job_id((#[trigger] steps[i]).id)
}

/// Whether `step` gives the identifier `id`, which is not in use, to a new
/// job of a queue other than `q`.
pub open spec fn gives_away(v: ManagerView, step: Step, id: Seq<u8>, q: Seq<u8>) -> bool {
    &&& step.req.cmd == Command::ADDJOB
    &&& step.id == id
    &&& !v.reverse.contains_key(id)
    &&& parse_addjob(step.req.arg).is_some()
    &&& parse_addjob(step.req.arg).unwrap().queue != q
}

/// Whether no step of `steps`, answered in order from `v`, gives `id` to a
/// job of a queue other than `q`.
pub open spec fn never_given_away(v: ManagerView, steps: Seq<Step>, id: Seq<u8>, q: Seq<u8>) -> bool
    decreases steps.len(),
{
    steps.len() == 0 || (!gives_away(v, steps[0], id, q) && never_given_away(
        after(v, steps[0]),
        steps.skip(1),
        id,
        q,
    ))
}

/// Whether `id`, where it is indexed, is indexed under `q`.
pub open spec fn owned_by(v: ManagerView, id: Seq<u8>, q: Seq<u8>) -> bool {
    v.reverse.contains_key(id) ==> v.reverse[id] == q
}

/// `ACKJOB` only takes entries out of the index.
pub proof fn lemma_ack_all_index(v: ManagerView, ids: Seq<Seq<u8>>)
    ensures
        forall|id: Seq<u8>| #[trigger]
            v.ack_all(ids).0.reverse.contains_key(id) ==> v.reverse.contains_key(id) && v.ack_all(
                ids,
            ).0.reverse[id] == v.reverse[id],
    decreases ids.len(),
{
    if ids.len() > 0 {
        let u = v.ack_one(ids[0]);
        lemma_ack_all_index(u, ids.skip(1));
        assert(v.ack_all(ids).0 == u.ack_all(ids.skip(1)).0);
        assert forall|id: Seq<u8>| #[trigger]
            v.ack_all(ids).0.reverse.contains_key(id) implies v.reverse.contains_key(id)
            && v.ack_all(ids).0.reverse[id] == v.reverse[id] by {
            assert(u.ack_all(ids.skip(1)).0.reverse.contains_key(id));
            assert(u.reverse.contains_key(id));
        }
    }
}

/// A request that does not give `id` away leaves it with its queue.
pub proof fn lemma_owner_kept_by_step(v: ManagerView, step: Step, id: Seq<u8>, q: Seq<u8>)
    requires
        v.wf(),
        is_job_id(step.id),
        owned_by(v, id, q),
        !gives_away(v, step, id, q),
    ensures
        after(v, step).wf(),
        owned_by(after(v, step), id, q),
{
    lemma_respond_wf(v, step.req, step.id, step.now);
    match step.req.cmd {
        Command::GETJOB => {
            lemma_lease_wf(v, tokens(step.req.arg), step.now);
        },
        Command::ACKJOB => {
            lemma_ack_all_index(v, tokens(step.req.arg));
        },
        _ => {},
    }
}

/// An identifier stays with its queue through any requests that do not
/// give it away.
pub proof fn lemma_owner_kept(v: ManagerView, steps: Seq<Step>, id: Seq<u8>, q: Seq<u8>)
    requires
        v.wf(),
        fresh_ids_formed(steps),
        owned_by(v, id, q),
        never_given_away(v, steps, id, q),
    ensures
        run(v, steps).wf(),
        owned_by(run(v, steps), id, q),
    decreases steps.len(),
{
    if steps.len() > 0 {
        lemma_owner_kept_by_step(v, steps[0], id, q);
        let rest = steps.skip(1);
        assert forall|i: int| 0 <= i < rest.len() implies is_job_id((#[trigger] rest[i]).id) by {
            assert(rest[i] == steps[i + 1]);
        }
        lemma_owner_kept(after(v, steps[0]), rest, id, q);
    }
}

/// The identifier of a job that was added to the queue `q` is out of the
/// index once a later `DELQUE` of `q` is answered, whatever requests came
/// between, as long as none of them gave the identifier to a job of another
/// queue after the first job was acknowledged.
pub proof fn lemma_added_then_deleted(
    v: ManagerView,
    add: RequestView,
    id: Seq<u8>,
    now: u128,
    steps: Seq<Step>,
    del: RequestView,
)
    requires
        v.wf(),
        is_job_id(id),
        fresh_ids_formed(steps),
        add.cmd == Command::ADDJOB,
        parse_addjob(add.arg).is_some(),
        !v.reverse.contains_key(id),
        first_token(del.arg) == Some(parse_addjob(add.arg).unwrap().queue),
        never_given_away(v.addjob(add, id, now).0, steps, id, parse_addjob(add.arg).unwrap().queue),
    ensures
        v.addjob(add, id, now).0.reverse.contains_key(id),
        !run(v.addjob(add, id, now).0, steps).delque(del).0.reverse.contains_key(id),
{
    let args = parse_addjob(add.arg).unwrap();
    let q = args.queue;
    let job = JobView { id, job: args.payload, retry: args.retry, running: false, start: now };
    lemma_addjob_queue_is_word(add.arg);
    lemma_add_job_wf(v, q, job);
    let s = v.addjob(add, id, now).0;
    lemma_owner_kept(s, steps, id, q);
    let w = run(s, steps);
    lemma_delete_clears_index(w, q);
    if w.reverse.contains_key(id) {
        assert(w.queues.contains_key(q));
    }
}

/// A read event keeps the front end sound, and a request that comes of it
/// bears the id of its connection, which is never that of the listener or
/// the waker.
pub proof fn lemma_read_keeps_sound(v: ServerView, token: usize, event: ReadEventView)
    requires
        v.wf(),
    ensures
        v.on_read(token, event).0.wf(),
        v.on_read(token, event).1 matches ActionView::Dispatch(req) ==> req.token == token
            && token >= START_POINT && v.connections.contains_key(token),
{
}

/// A write event and a reply keep the front end sound.
pub proof fn lemma_write_keeps_sound(
    v: ServerView,
    token: usize,
    event: WriteEvent,
    reply: ReplyView,
)
    requires
        v.wf(),
    ensures
        v.on_write(token, event).0.wf(),
        v.on_reply(reply).0.wf(),
{
}

} // verus!
