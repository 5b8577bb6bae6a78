use qust::command::Command;
use qust::manager::{split_addjob, QueueManager};
use qust::message::{Reply, Request};
use qust::queue::{JobId, NANOS_PER_SEC};

const ID_A: &[u8; 32] = b"0123456789abcdef0123456789abcdef";
const ID_B: &[u8; 32] = b"ffffffffffffffffffffffffffffffff";
const ID_C: &[u8; 32] = b"00000000000000000000000000000000";

fn req(cmd: Command, arg: &[u8]) -> Request {
    Request {
        token: 5,
        cmd,
        arg: arg.to_vec(),
    }
}

fn id(bytes: &[u8]) -> JobId {
    JobId::from_bytes(bytes).unwrap()
}

fn add(m: &mut QueueManager, arg: &[u8], job_id: &[u8], at: u128) -> Reply {
    m.handle_addjob_with(&req(Command::ADDJOB, arg), id(job_id), at)
}

fn stat(m: &QueueManager, queue: &[u8]) -> Vec<u8> {
    m.handle_statque(&req(Command::STATQUE, queue)).message()
}

#[test]
fn hello_is_answered_with_hello() {
    let m = QueueManager::new();
    let r = m.handle_hello(&req(Command::HELLO, b"foo"));
    assert_eq!(r.token, 5);
    assert_eq!(r.status, 0);
    assert_eq!(r.message(), b"0 Hello\n");
}

#[test]
fn quit_is_answered_with_nothing_to_say() {
    let m = QueueManager::new();
    let r = m.handle_quit(&req(Command::QUIT, b""));
    assert_eq!(r.token, 5);
    assert_eq!(r.message(), b"0 \n");
}

#[test]
fn addjob_fields_are_split_at_the_first_two_spaces() {
    let f = split_addjob(b"q 300 a").unwrap();
    assert_eq!((f.name_end, f.retry, f.payload_start), (1, 300, 6));
    let f = split_addjob(b"queue 7 pay load  x ").unwrap();
    assert_eq!((f.name_end, f.retry, f.payload_start), (5, 7, 8));
    let f = split_addjob(b"q 300  a").unwrap();
    assert_eq!((f.name_end, f.retry, f.payload_start), (1, 300, 6));
}

#[test]
fn addjob_with_a_missing_field_is_refused() {
    assert!(split_addjob(b"").is_none());
    assert!(split_addjob(b"q").is_none());
    assert!(split_addjob(b"q ").is_none());
    assert!(split_addjob(b"q 300").is_none());
    assert!(split_addjob(b"q 300 ").is_none());
    assert!(split_addjob(b" 300 a").is_none());
    assert!(split_addjob(b" q 300 a").is_none());
    assert!(split_addjob(b"q  300 a").is_none());
}

#[test]
fn addjob_with_seconds_that_are_no_number_is_refused() {
    assert!(split_addjob(b"q abc a").is_none());
    assert!(split_addjob(b"q -1 a").is_none());
    assert!(split_addjob(b"q 1.5 a").is_none());
    assert!(split_addjob(b"q 18446744073709551616 a").is_none());
    assert!(split_addjob(b"q 18446744073709551615 a").is_some());
}

#[test]
fn addjob_replies_with_the_id() {
    let mut m = QueueManager::new();
    let r = add(&mut m, b"q 300 a", ID_A, 0);
    assert_eq!(r.token, 5);
    assert_eq!(r.status, 1);
    assert_eq!(r.data, ID_A);
    let wire = r.message();
    assert_eq!(wire.len(), 35);
    assert_eq!(&wire[0..2], b"1 ");
    assert_eq!(&wire[2..34], ID_A);
    assert_eq!(&wire[34..35], b"\n");
}

#[test]
fn addjob_on_a_fresh_server_gives_32_hex_digits() {
    let mut m = QueueManager::new();
    let wire = m
        .handle_addjob(&req(Command::ADDJOB, b"q 300 a"))
        .message();
    assert_eq!(wire.len(), 35);
    assert_eq!(&wire[0..2], b"1 ");
    assert_eq!(wire[34], b'\n');
    assert!(wire[2..34]
        .iter()
        .all(|c| c.is_ascii_digit() || (b'a'..=b'f').contains(c)));
    assert_eq!(stat(&m, b"q"), b"1 1 0\n");
}

#[test]
fn malformed_addjob_gets_the_error_reply_and_changes_nothing() {
    let mut m = QueueManager::new();
    for arg in [
        &b""[..],
        b"q",
        b"q 300",
        b"q 300 ",
        b"q x y",
        b" 300 a",
        b"q  300 a",
    ] {
        let r = add(&mut m, arg, ID_A, 0);
        assert_eq!(r.message(), b"-1 Error\n");
        assert_eq!(r.token, 5);
    }
    assert_eq!(stat(&m, b"q"), b"0 0 0\n");
    // The identifier was not taken by the refused requests.
    assert_eq!(add(&mut m, b"q 300 a", ID_A, 0).status, 1);
}

#[test]
fn addjob_under_an_id_in_use_is_refused() {
    let mut m = QueueManager::new();
    assert_eq!(add(&mut m, b"q 300 a", ID_A, 0).status, 1);
    assert_eq!(add(&mut m, b"q 300 b", ID_A, 0).message(), b"-1 Error\n");
    assert_eq!(add(&mut m, b"other 300 b", ID_A, 0).message(), b"-1 Error\n");
    assert_eq!(stat(&m, b"q"), b"1 1 0\n");
    assert_eq!(stat(&m, b"other"), b"0 0 0\n");
    // Once the job is acknowledged the identifier is free again.
    assert_eq!(m.handle_ackjob(&req(Command::ACKJOB, ID_A)).status, 1);
    assert_eq!(add(&mut m, b"other 300 b", ID_A, 0).status, 1);
    assert_eq!(stat(&m, b"other"), b"1 1 0\n");
}

#[test]
fn payload_keeps_its_spaces() {
    let mut m = QueueManager::new();
    assert_eq!(add(&mut m, b"q 300 a b  c ", ID_A, 0).status, 1);
    let r = m.handle_getjob_at(&req(Command::GETJOB, b"q"), 1);
    assert_eq!(r.status, 1);
    let mut want = ID_A.to_vec();
    want.extend_from_slice(b" a b  c ");
    assert_eq!(r.data, want);
}

#[test]
fn add_then_stat_is_1_1_0() {
    let mut m = QueueManager::new();
    add(&mut m, b"q 300 p", ID_A, 0);
    assert_eq!(stat(&m, b"q"), b"1 1 0\n");
}

#[test]
fn add_get_then_stat_is_1_1_1() {
    let mut m = QueueManager::new();
    add(&mut m, b"q 300 p", ID_A, 0);
    let r = m.handle_getjob_at(&req(Command::GETJOB, b"q"), 10);
    assert_eq!(r.message(), b"1 0123456789abcdef0123456789abcdef p\n");
    assert_eq!(stat(&m, b"q"), b"1 1 1\n");
}

#[test]
fn add_get_ack_then_stat_is_1_0_0() {
    let mut m = QueueManager::new();
    add(&mut m, b"q 300 p", ID_A, 0);
    m.handle_getjob_at(&req(Command::GETJOB, b"q"), 10);
    let r = m.handle_ackjob(&req(Command::ACKJOB, ID_A));
    assert_eq!(r.message(), b"1 \n");
    assert_eq!(stat(&m, b"q"), b"1 0 0\n");
}

#[test]
fn statque_on_a_missing_queue_is_0_0_0() {
    let m = QueueManager::new();
    assert_eq!(stat(&m, b"q"), b"0 0 0\n");
    assert_eq!(stat(&m, b""), b"0 0 0\n");
    assert_eq!(stat(&m, b"   "), b"0 0 0\n");
}

#[test]
fn statque_reads_the_first_name() {
    let mut m = QueueManager::new();
    add(&mut m, b"q 300 p", ID_A, 0);
    add(&mut m, b"q 300 p", ID_B, 0);
    add(&mut m, b"r 300 p", ID_C, 0);
    assert_eq!(stat(&m, b"q"), b"1 2 0\n");
    assert_eq!(stat(&m, b"  q r"), b"1 2 0\n");
    assert_eq!(stat(&m, b"r q"), b"1 1 0\n");
    assert_eq!(stat(&m, b"x q"), b"0 0 0\n");
}

#[test]
fn statque_counts_ten_and_more() {
    let mut m = QueueManager::new();
    for i in 0..12u8 {
        let mut job_id = *ID_C;
        job_id[31] = b"0123456789ab"[i as usize];
        assert_eq!(add(&mut m, b"q 300 p", &job_id, 0).status, 1);
    }
    for _ in 0..10 {
        assert_eq!(m.handle_getjob_at(&req(Command::GETJOB, b"q"), 1).status, 1);
    }
    assert_eq!(stat(&m, b"q"), b"1 12 10\n");
}

#[test]
fn getjob_on_an_empty_server_is_0() {
    let mut m = QueueManager::new();
    let r = m.handle_getjob_at(&req(Command::GETJOB, b"q"), 0);
    assert_eq!(r.message(), b"0 \n");
    assert_eq!(
        m.handle_getjob_at(&req(Command::GETJOB, b""), 0).message(),
        b"0 \n"
    );
    // Asking does not create the queue.
    assert_eq!(stat(&m, b"q"), b"0 0 0\n");
}

#[test]
fn getjob_takes_the_first_queue_that_has_a_job() {
    let mut m = QueueManager::new();
    add(&mut m, b"q2 300 two", ID_A, 0);
    add(&mut m, b"q3 300 three", ID_B, 0);
    let r = m.handle_getjob_at(&req(Command::GETJOB, b"q1 q2 q3"), 1);
    assert_eq!(r.status, 1);
    assert_eq!(&r.data[..32], ID_A);
    assert_eq!(&r.data[32..], b" two");
    // The job of q2 is leased now, so q3 is next.
    let r = m.handle_getjob_at(&req(Command::GETJOB, b"q1  q2 q3"), 1);
    assert_eq!(&r.data[..32], ID_B);
    assert_eq!(&r.data[32..], b" three");
    let r = m.handle_getjob_at(&req(Command::GETJOB, b"q1 q2 q3"), 1);
    assert_eq!(r.message(), b"0 \n");
    assert_eq!(stat(&m, b"q2"), b"1 1 1\n");
    assert_eq!(stat(&m, b"q3"), b"1 1 1\n");
}

#[test]
fn getjob_follows_the_order_of_the_request() {
    let mut m = QueueManager::new();
    add(&mut m, b"q2 300 two", ID_A, 0);
    add(&mut m, b"q3 300 three", ID_B, 0);
    let r = m.handle_getjob_at(&req(Command::GETJOB, b"q3 q2"), 1);
    assert_eq!(&r.data[..32], ID_B);
}

#[test]
fn leased_job_comes_back_after_its_retry_interval() {
    let mut m = QueueManager::new();
    add(&mut m, b"q 2 p", ID_A, 0);
    let t0 = 1000;
    assert_eq!(m.handle_getjob_at(&req(Command::GETJOB, b"q"), t0).status, 1);
    let edge = t0 + 2 * NANOS_PER_SEC;
    assert_eq!(m.handle_getjob_at(&req(Command::GETJOB, b"q"), edge - 1).status, 0);
    assert_eq!(m.handle_getjob_at(&req(Command::GETJOB, b"q"), edge).status, 0);
    let r = m.handle_getjob_at(&req(Command::GETJOB, b"q"), edge + 1);
    assert_eq!(r.status, 1);
    assert_eq!(&r.data[..32], ID_A);
    // The lease was renewed at the time of the second hand-out.
    assert_eq!(
        m.handle_getjob_at(&req(Command::GETJOB, b"q"), edge + 2).status,
        0
    );
    assert_eq!(stat(&m, b"q"), b"1 1 1\n");
}

#[test]
fn getjob_reads_the_clock() {
    let mut m = QueueManager::new();
    add(&mut m, b"q 300 p", ID_A, 0);
    let r = m.handle_getjob(&req(Command::GETJOB, b"q"));
    assert_eq!(r.message(), b"1 0123456789abcdef0123456789abcdef p\n");
    assert_eq!(m.handle_getjob(&req(Command::GETJOB, b"q")).message(), b"0 \n");
}

#[test]
fn ackjob_counts_what_it_removed() {
    let mut m = QueueManager::new();
    add(&mut m, b"q 300 a", ID_A, 0);
    add(&mut m, b"r 300 b", ID_B, 0);
    add(&mut m, b"q 300 c", ID_C, 0);
    let mut arg = ID_A.to_vec();
    arg.push(b' ');
    arg.extend_from_slice(b"unknown");
    arg.extend_from_slice(b"  ");
    arg.extend_from_slice(ID_B);
    arg.push(b' ');
    arg.extend_from_slice(ID_A);
    let r = m.handle_ackjob(&req(Command::ACKJOB, &arg));
    assert_eq!(r.status, 2);
    assert_eq!(r.message(), b"2 \n");
    assert_eq!(stat(&m, b"q"), b"1 1 0\n");
    assert_eq!(stat(&m, b"r"), b"1 0 0\n");
}

#[test]
fn ackjob_of_nothing_known_is_0() {
    let mut m = QueueManager::new();
    add(&mut m, b"q 300 a", ID_A, 0);
    assert_eq!(m.handle_ackjob(&req(Command::ACKJOB, ID_B)).message(), b"0 \n");
    assert_eq!(m.handle_ackjob(&req(Command::ACKJOB, b"")).message(), b"0 \n");
    assert_eq!(m.handle_ackjob(&req(Command::ACKJOB, b"q")).message(), b"0 \n");
    assert_eq!(stat(&m, b"q"), b"1 1 0\n");
    assert_eq!(m.handle_ackjob(&req(Command::ACKJOB, ID_A)).status, 1);
    assert_eq!(m.handle_ackjob(&req(Command::ACKJOB, ID_A)).status, 0);
}

#[test]
fn acked_job_is_not_handed_out_again() {
    let mut m = QueueManager::new();
    add(&mut m, b"q 0 a", ID_A, 0);
    add(&mut m, b"q 0 b", ID_B, 0);
    assert_eq!(m.handle_ackjob(&req(Command::ACKJOB, ID_A)).status, 1);
    let r = m.handle_getjob_at(&req(Command::GETJOB, b"q"), 5);
    assert_eq!(&r.data[..32], ID_B);
}

#[test]
fn delque_on_an_empty_server_is_three_bytes() {
    let mut m = QueueManager::new();
    let wire = m.handle_delque(&req(Command::DELQUE, b"test")).message();
    assert_eq!(wire.len(), 3);
    assert_eq!(wire, b"0 \n");
    assert_eq!(
        m.handle_delque(&req(Command::DELQUE, b"")).message(),
        b"0 \n"
    );
}

#[test]
fn delque_removes_the_queue_and_its_ids() {
    let mut m = QueueManager::new();
    add(&mut m, b"q 300 a", ID_A, 0);
    add(&mut m, b"q 300 b", ID_B, 0);
    add(&mut m, b"r 300 c", ID_C, 0);
    m.handle_getjob_at(&req(Command::GETJOB, b"q"), 1);
    assert_eq!(m.handle_delque(&req(Command::DELQUE, b"q")).message(), b"1 \n");
    assert_eq!(stat(&m, b"q"), b"0 0 0\n");
    assert_eq!(stat(&m, b"r"), b"1 1 0\n");
    // The identifiers left the index: they cannot be acknowledged, and can
    // be given out again.
    let mut both = ID_A.to_vec();
    both.push(b' ');
    both.extend_from_slice(ID_B);
    assert_eq!(m.handle_ackjob(&req(Command::ACKJOB, &both)).status, 0);
    assert_eq!(add(&mut m, b"r 300 again", ID_A, 0).status, 1);
    assert_eq!(m.handle_ackjob(&req(Command::ACKJOB, ID_C)).status, 1);
}

#[test]
fn delque_twice_is_1_then_0() {
    let mut m = QueueManager::new();
    add(&mut m, b"q 300 a", ID_A, 0);
    assert_eq!(m.handle_delque(&req(Command::DELQUE, b"q")).message(), b"1 \n");
    assert_eq!(m.handle_delque(&req(Command::DELQUE, b"q")).message(), b"0 \n");
    assert_eq!(m.handle_delque(&req(Command::DELQUE, b"q")).message(), b"0 \n");
}

#[test]
fn delque_of_an_emptied_queue_is_1() {
    let mut m = QueueManager::new();
    add(&mut m, b"q 300 a", ID_A, 0);
    m.handle_ackjob(&req(Command::ACKJOB, ID_A));
    assert_eq!(m.handle_delque(&req(Command::DELQUE, b"q")).message(), b"1 \n");
    assert_eq!(stat(&m, b"q"), b"0 0 0\n");
}

#[test]
fn handle_with_dispatches_every_command() {
    let mut m = QueueManager::new();
    let r = m
        .handle_with(&req(Command::HELLO, b""), id(ID_A), 0)
        .unwrap();
    assert_eq!(r.message(), b"0 Hello\n");
    let r = m
        .handle_with(&req(Command::ADDJOB, b"q 1 p"), id(ID_A), 0)
        .unwrap();
    assert_eq!(r.data, ID_A);
    let r = m
        .handle_with(&req(Command::STATQUE, b"q"), id(ID_B), 0)
        .unwrap();
    assert_eq!(r.message(), b"1 1 0\n");
    let r = m
        .handle_with(&req(Command::GETJOB, b"q"), id(ID_B), 0)
        .unwrap();
    assert_eq!(r.status, 1);
    let r = m
        .handle_with(&req(Command::ACKJOB, ID_A), id(ID_B), 0)
        .unwrap();
    assert_eq!(r.message(), b"1 \n");
    let r = m
        .handle_with(&req(Command::DELQUE, b"q"), id(ID_B), 0)
        .unwrap();
    assert_eq!(r.message(), b"1 \n");
    let r = m.handle_with(&req(Command::QUIT, b""), id(ID_B), 0).unwrap();
    assert_eq!(r.message(), b"0 \n");
    assert!(m
        .handle_with(&req(Command::TERMINATE, b""), id(ID_B), 0)
        .is_none());
}

#[test]
fn handle_answers_all_but_terminate() {
    let mut m = QueueManager::new();
    assert!(m.handle(&req(Command::TERMINATE, b"")).is_none());
    let r = m.handle(&req(Command::ADDJOB, b"q 300 p")).unwrap();
    assert_eq!(r.status, 1);
    assert_eq!(r.token, 5);
    let job_id = r.data.clone();
    assert_eq!(job_id.len(), 32);
    let r = m.handle(&req(Command::GETJOB, b"q")).unwrap();
    assert_eq!(&r.data[..32], &job_id[..]);
    assert_eq!(&r.data[32..], b" p");
    let r = m.handle(&req(Command::ACKJOB, &job_id)).unwrap();
    assert_eq!(r.message(), b"1 \n");
    let r = m.handle(&req(Command::STATQUE, b"q")).unwrap();
    assert_eq!(r.message(), b"1 0 0\n");
    assert_eq!(m.handle(&req(Command::HELLO, b"")).unwrap().status, 0);
    assert_eq!(m.handle(&req(Command::QUIT, b"")).unwrap().status, 0);
}

#[test]
fn every_indexed_id_lives_in_one_queue() {
    // Three jobs in two queues: each identifier is acknowledged once, and
    // only the count of its own queue goes down.
    let mut m = QueueManager::new();
    add(&mut m, b"q 300 a", ID_A, 0);
    add(&mut m, b"r 300 b", ID_B, 0);
    add(&mut m, b"q 300 c", ID_C, 0);
    assert_eq!(m.handle_ackjob(&req(Command::ACKJOB, ID_B)).status, 1);
    assert_eq!(stat(&m, b"q"), b"1 2 0\n");
    assert_eq!(stat(&m, b"r"), b"1 0 0\n");
    assert_eq!(m.handle_ackjob(&req(Command::ACKJOB, ID_B)).status, 0);
    assert_eq!(m.handle_ackjob(&req(Command::ACKJOB, ID_C)).status, 1);
    assert_eq!(stat(&m, b"q"), b"1 1 0\n");
}
