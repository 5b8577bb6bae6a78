use qust::queue::{now, Job, JobId, Queue, JOB_ID_SIZE, NANOS_PER_SEC};

const ID_A: &[u8; 32] = b"0123456789abcdef0123456789abcdef";
const ID_B: &[u8; 32] = b"ffffffffffffffffffffffffffffffff";
const ID_C: &[u8; 32] = b"00000000000000000000000000000000";

fn job(id: &[u8], payload: &[u8], retry: u64, at: u128) -> Job {
    Job::with_id(JobId::from_bytes(id).unwrap(), payload.to_vec(), retry, at)
}

#[test]
fn job_id_takes_32_lower_hex_digits() {
    let id = JobId::from_bytes(ID_A).unwrap();
    assert_eq!(id.as_bytes(), ID_A);
    assert!(id.is(ID_A));
    assert!(!id.is(ID_B));
    assert_eq!(id.duplicate().as_bytes(), ID_A);
    assert_eq!(JOB_ID_SIZE, 32);
}

#[test]
fn job_id_refuses_other_forms() {
    assert!(JobId::from_bytes(b"").is_none());
    assert!(JobId::from_bytes(&ID_A[..31]).is_none());
    assert!(JobId::from_bytes(b"0123456789abcdef0123456789abcdef0").is_none());
    assert!(JobId::from_bytes(b"0123456789ABCDEF0123456789abcdef").is_none());
    assert!(JobId::from_bytes(b"0123456789abcdeg0123456789abcdef").is_none());
    assert!(JobId::from_bytes(b"0123456789abcde 0123456789abcdef").is_none());
    assert!(JobId::from_bytes(b"0123456789abcde/0123456789abcdef").is_none());
    assert!(JobId::from_bytes(b"0123456789abcde:0123456789abcdef").is_none());
    assert!(JobId::from_bytes(b"0123456789abcde`0123456789abcdef").is_none());
}

#[test]
fn generated_ids_are_hex_and_differ() {
    let a = JobId::generate();
    let b = JobId::generate();
    for id in [&a, &b] {
        let bytes = id.as_bytes();
        assert_eq!(bytes.len(), 32);
        assert!(bytes
            .iter()
            .all(|c| c.is_ascii_digit() || (b'a'..=b'f').contains(c)));
        assert!(JobId::from_bytes(bytes).is_some());
    }
    assert_ne!(a.as_bytes(), b.as_bytes());
}

#[test]
fn the_clock_runs() {
    let t = now();
    // Later than the start of 2020.
    assert!(t > 1_577_836_800 * NANOS_PER_SEC);
    assert!(now() >= t);
}

#[test]
fn new_job_is_not_leased() {
    let before = now();
    let j = Job::new(b"work".to_vec(), 300);
    assert_eq!(j.job, b"work");
    assert_eq!(j.retry, 300);
    assert!(!j.running);
    assert!(j.start >= before);
    assert_eq!(j.id.as_bytes().len(), 32);
    let j = job(ID_A, b"w", 5, 77);
    assert_eq!(j.id.as_bytes(), ID_A);
    assert_eq!(j.start, 77);
    assert_eq!(j.retry, 5);
    assert!(!j.running);
}

#[test]
fn run_stamps_the_lease() {
    let mut j = job(ID_A, b"w", 5, 77);
    j.run_at(1000);
    assert!(j.running);
    assert_eq!(j.start, 1000);
    assert_eq!(j.job, b"w");
    assert_eq!(j.retry, 5);
    let before = now();
    j.run();
    assert!(j.running);
    assert!(j.start >= before);
}

#[test]
fn lease_expires_strictly_after_the_retry_interval() {
    let mut j = job(ID_A, b"w", 2, 0);
    j.run_at(10);
    assert!(!j.is_retry_at(10));
    assert!(!j.is_retry_at(10 + 2 * NANOS_PER_SEC - 1));
    assert!(!j.is_retry_at(10 + 2 * NANOS_PER_SEC));
    assert!(j.is_retry_at(10 + 2 * NANOS_PER_SEC + 1));
    assert!(j.is_retry_at(u128::MAX));
    // A clock that went back never expires a lease.
    assert!(!j.is_retry_at(0));
}

#[test]
fn lease_with_zero_retry_expires_at_once() {
    let mut j = job(ID_A, b"w", 0, 0);
    j.run_at(5);
    assert!(!j.is_retry_at(5));
    assert!(j.is_retry_at(6));
}

#[test]
fn lease_with_largest_retry_does_not_overflow() {
    let mut j = job(ID_A, b"w", u64::MAX, 0);
    j.run_at(0);
    let span = (u64::MAX as u128) * NANOS_PER_SEC;
    assert!(!j.is_retry_at(span));
    assert!(j.is_retry_at(span + 1));
}

#[test]
fn is_retry_reads_the_clock() {
    let mut j = job(ID_A, b"w", 0, 0);
    j.run_at(0);
    assert!(j.is_retry());
    let mut j = job(ID_A, b"w", u64::MAX, 0);
    j.run();
    assert!(!j.is_retry());
}

#[test]
fn queue_keeps_insertion_order() {
    let mut q = Queue::new();
    assert_eq!(q.len(), 0);
    assert_eq!(q.running_jobs(), 0);
    q.add(job(ID_A, b"a", 1, 0));
    q.add(job(ID_B, b"b", 1, 0));
    q.add(job(ID_C, b"c", 1, 0));
    assert_eq!(q.len(), 3);
    assert_eq!(q.job_at(0).job, b"a");
    assert_eq!(q.job_at(1).job, b"b");
    assert_eq!(q.job_at(2).job, b"c");
    assert_eq!(q.running_jobs(), 0);
}

#[test]
fn get_hands_out_jobs_head_first() {
    let mut q = Queue::new();
    q.add(job(ID_A, b"a", 1, 0));
    q.add(job(ID_B, b"b", 1, 0));
    {
        let j = q.get_at(100).unwrap();
        assert_eq!(j.id.as_bytes(), ID_A);
        assert!(j.running);
        assert_eq!(j.start, 100);
    }
    assert_eq!(q.running_jobs(), 1);
    assert_eq!(q.len(), 2);
    {
        let j = q.get_at(101).unwrap();
        assert_eq!(j.id.as_bytes(), ID_B);
        assert_eq!(j.start, 101);
    }
    assert_eq!(q.running_jobs(), 2);
    assert!(q.get_at(102).is_none());
    assert_eq!(q.len(), 2);
}

#[test]
fn get_on_empty_queue_is_none() {
    let mut q = Queue::new();
    assert!(q.get_at(0).is_none());
    assert!(q.get().is_none());
    assert_eq!(q.lease_at(0), None);
}

#[test]
fn expired_lease_goes_before_later_jobs() {
    let mut q = Queue::new();
    q.add(job(ID_A, b"a", 1, 0));
    q.add(job(ID_B, b"b", 1, 0));
    assert_eq!(q.lease_at(0), Some(0));
    // The lease of the first job has run out; the second was never leased.
    let t = NANOS_PER_SEC + 1;
    assert_eq!(q.lease_at(t), Some(0));
    assert_eq!(q.job_at(0).start, t);
    assert_eq!(q.lease_at(t), Some(1));
    assert_eq!(q.lease_at(t), None);
    // The flag count is not adjusted for leases that have run out.
    assert_eq!(q.running_jobs(), 2);
    assert_eq!(q.lease_at(2 * t), Some(0));
    assert_eq!(q.running_jobs(), 2);
}

#[test]
fn get_reads_the_clock() {
    let mut q = Queue::new();
    q.add(job(ID_A, b"a", u64::MAX, 0));
    let before = now();
    {
        let j = q.get().unwrap();
        assert!(j.running);
        assert!(j.start >= before);
        assert_eq!(j.id.as_bytes(), ID_A);
    }
    assert!(q.get().is_none());
    assert_eq!(q.running_jobs(), 1);
}

#[test]
fn ack_removes_the_first_match() {
    let mut q = Queue::new();
    q.add(job(ID_A, b"a", 1, 0));
    q.add(job(ID_B, b"b", 1, 0));
    q.add(job(ID_A, b"c", 1, 0));
    assert!(q.ack(ID_A));
    assert_eq!(q.len(), 2);
    assert_eq!(q.job_at(0).job, b"b");
    assert_eq!(q.job_at(1).job, b"c");
    assert!(q.ack(ID_A));
    assert_eq!(q.len(), 1);
    assert!(!q.ack(ID_A));
    assert!(!q.ack(ID_C));
    assert!(!q.ack(b"short"));
    assert!(!q.ack(b""));
    assert_eq!(q.len(), 1);
    assert!(q.ack(ID_B));
    assert_eq!(q.len(), 0);
}

#[test]
fn leased_count_never_exceeds_len() {
    let mut q = Queue::new();
    for (i, id) in [ID_A, ID_B, ID_C].iter().enumerate() {
        q.add(job(*id, b"x", 9, 0));
        assert!(q.running_jobs() <= q.len());
        assert_eq!(q.len(), i + 1);
    }
    for n in 1..=3usize {
        assert!(q.lease_at(1).is_some());
        assert_eq!(q.running_jobs(), n);
        assert!(q.running_jobs() <= q.len());
    }
    assert!(q.ack(ID_B));
    assert_eq!(q.running_jobs(), 2);
    assert_eq!(q.len(), 2);
}

#[test]
fn clean_empties_the_queue() {
    let mut q = Queue::new();
    q.add(job(ID_A, b"a", 1, 0));
    q.add(job(ID_B, b"b", 1, 0));
    q.clean();
    assert_eq!(q.len(), 0);
    assert_eq!(q.running_jobs(), 0);
    assert!(q.get_at(0).is_none());
}
