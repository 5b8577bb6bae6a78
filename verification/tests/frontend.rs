use qust::command::Command;
use qust::message::Reply;
use qust::server::{
    interrupted, next, would_block, Action, Connection, Interest, IoFailure, ReadEvent, Server,
    WriteEvent, MAX_BUFFER_SIZE, SERVER, START_POINT, WAKER,
};
use qust::signal::Sig;
use std::sync::atomic::{AtomicBool, Ordering};
use std::sync::Arc;

fn open() -> (Server, usize) {
    let mut s = Server::new();
    let id = s.serve();
    (s, id)
}

fn read(s: &mut Server, token: usize, bytes: &[u8]) -> Action {
    s.handle_to_read(token, ReadEvent::Bytes(bytes))
}

#[test]
fn reserved_ids() {
    assert_eq!(SERVER, 0);
    assert_eq!(WAKER, 1);
    assert_eq!(START_POINT, 2);
    assert_eq!(MAX_BUFFER_SIZE, 1024 * 1024 + 1024);
}

#[test]
fn next_counts_up_from_the_current_id() {
    let mut t = START_POINT;
    assert_eq!(next(&mut t), 2);
    assert_eq!(next(&mut t), 3);
    assert_eq!(next(&mut t), 4);
    assert_eq!(t, 5);
}

#[test]
fn next_wraps_to_the_start_point() {
    let mut t = usize::MAX - 1;
    assert_eq!(next(&mut t), usize::MAX - 1);
    assert_eq!(t, usize::MAX);
    assert_eq!(next(&mut t), usize::MAX);
    assert_eq!(t, 2);
    assert_eq!(next(&mut t), 2);
    assert_eq!(t, 3);
}

#[test]
fn failures_are_told_apart() {
    assert!(would_block(&IoFailure::WouldBlock));
    assert!(!would_block(&IoFailure::Interrupted));
    assert!(!would_block(&IoFailure::Other));
    assert!(interrupted(&IoFailure::Interrupted));
    assert!(!interrupted(&IoFailure::WouldBlock));
    assert!(!interrupted(&IoFailure::Other));
}

#[test]
fn connection_starts_and_ends_clean() {
    let mut c = Connection::new();
    assert!(c.reply.is_empty());
    assert!(c.received_data.is_empty());
    c.reply = b"x".to_vec();
    c.received_data = b"y".to_vec();
    c.clean();
    assert!(c.reply.is_empty());
    assert!(c.received_data.is_empty());
}

#[test]
fn serve_gives_ids_from_two() {
    let mut s = Server::new();
    assert!(!s.is_open(2));
    assert_eq!(s.serve(), 2);
    assert_eq!(s.serve(), 3);
    assert!(s.is_open(2));
    assert!(s.is_open(3));
    assert!(!s.is_open(0));
    assert!(!s.is_open(1));
    assert!(!s.is_open(4));
    assert_eq!(s.pending(2), Some(&b""[..]));
    assert_eq!(s.pending(4), None);
}

#[test]
fn complete_line_becomes_a_request() {
    let (mut s, id) = open();
    match read(&mut s, id, b"ADDJOB q 300 a b\n") {
        Action::Dispatch(req) => {
            assert_eq!(req.token, id);
            assert_eq!(req.cmd, Command::ADDJOB);
            assert_eq!(req.arg, b"q 300 a b");
        }
        other => panic!("{:?}", other),
    }
    assert!(s.is_open(id));
}

#[test]
fn command_without_argument_has_an_empty_one() {
    let (mut s, id) = open();
    match read(&mut s, id, b"HELLO\n") {
        Action::Dispatch(req) => {
            assert_eq!(req.cmd, Command::HELLO);
            assert!(req.arg.is_empty());
        }
        other => panic!("{:?}", other),
    }
    match read(&mut s, id, b"GETJOB \n") {
        Action::Dispatch(req) => {
            assert_eq!(req.cmd, Command::GETJOB);
            assert!(req.arg.is_empty());
        }
        other => panic!("{:?}", other),
    }
}

#[test]
fn line_may_arrive_in_pieces() {
    let (mut s, id) = open();
    assert!(matches!(
        read(&mut s, id, b"STAT"),
        Action::Arm(Interest::Readable)
    ));
    assert!(matches!(
        read(&mut s, id, b"QUE my"),
        Action::Arm(Interest::Readable)
    ));
    match read(&mut s, id, b"-queue\n") {
        Action::Dispatch(req) => {
            assert_eq!(req.cmd, Command::STATQUE);
            assert_eq!(req.arg, b"my-queue");
        }
        other => panic!("{:?}", other),
    }
    // The accumulator was reset: the next line stands alone.
    match read(&mut s, id, b"HELLO x\n") {
        Action::Dispatch(req) => {
            assert_eq!(req.cmd, Command::HELLO);
            assert_eq!(req.arg, b"x");
        }
        other => panic!("{:?}", other),
    }
}

#[test]
fn empty_line_is_passed_over() {
    let (mut s, id) = open();
    assert!(matches!(
        read(&mut s, id, b"\n"),
        Action::Arm(Interest::Readable)
    ));
    assert_eq!(s.pending(id), Some(&b""[..]));
    assert!(matches!(read(&mut s, id, b"HELLO\n"), Action::Dispatch(_)));
}

#[test]
fn unknown_command_gets_the_error_reply() {
    let (mut s, id) = open();
    assert!(matches!(
        read(&mut s, id, b"FOO bar\n"),
        Action::Arm(Interest::Writable)
    ));
    assert_eq!(s.pending(id), Some(&b"-1 Error\n"[..]));
    // The connection stays usable.
    assert!(matches!(
        s.handle_to_write(id, WriteEvent::Written(9)),
        Action::Arm(Interest::Readable)
    ));
    assert!(matches!(read(&mut s, id, b"HELLO\n"), Action::Dispatch(_)));
}

#[test]
fn lower_case_and_blank_names_are_unknown() {
    for line in [&b"hello\n"[..], b" \n", b" HELLO\n", b"HELLOx\n"] {
        let (mut s, id) = open();
        assert!(matches!(
            read(&mut s, id, line),
            Action::Arm(Interest::Writable)
        ));
        assert_eq!(s.pending(id), Some(&b"-1 Error\n"[..]));
    }
}

#[test]
fn quit_shuts_the_connection_down() {
    let (mut s, id) = open();
    assert!(matches!(read(&mut s, id, b"QUIT\n"), Action::Shutdown));
    assert!(!s.is_open(id));
    let (mut s, id) = open();
    assert!(matches!(read(&mut s, id, b"QUIT now\n"), Action::Shutdown));
    assert!(!s.is_open(id));
}

#[test]
fn no_bytes_mean_the_peer_has_closed() {
    let (mut s, id) = open();
    assert!(matches!(read(&mut s, id, b""), Action::Close));
    assert!(!s.is_open(id));
}

#[test]
fn read_failures() {
    let (mut s, id) = open();
    read(&mut s, id, b"HEL");
    assert!(matches!(
        s.handle_to_read(id, ReadEvent::Failed(IoFailure::WouldBlock)),
        Action::Arm(Interest::Readable)
    ));
    assert!(matches!(
        s.handle_to_read(id, ReadEvent::Failed(IoFailure::Interrupted)),
        Action::Arm(Interest::Readable)
    ));
    // Nothing was lost meanwhile.
    assert!(matches!(read(&mut s, id, b"LO\n"), Action::Dispatch(_)));
    assert!(matches!(
        s.handle_to_read(id, ReadEvent::Failed(IoFailure::Other)),
        Action::Shutdown
    ));
    assert!(!s.is_open(id));
}

#[test]
fn events_for_unknown_connections_change_nothing() {
    let (mut s, id) = open();
    assert!(matches!(read(&mut s, 99, b"HELLO\n"), Action::Keep));
    assert!(matches!(read(&mut s, 99, b""), Action::Keep));
    assert!(matches!(
        s.handle_to_write(99, WriteEvent::Written(1)),
        Action::Keep
    ));
    assert!(s.is_open(id));
    assert!(!s.is_open(99));
}

#[test]
fn line_of_exactly_the_limit_is_accepted() {
    let (mut s, id) = open();
    let head = b"ADDJOB q 300 ";
    let mut line = head.to_vec();
    line.resize(MAX_BUFFER_SIZE - 1, b'a');
    line.push(b'\n');
    assert_eq!(line.len(), MAX_BUFFER_SIZE);
    match read(&mut s, id, &line) {
        Action::Dispatch(req) => {
            assert_eq!(req.cmd, Command::ADDJOB);
            assert_eq!(req.arg.len(), MAX_BUFFER_SIZE - 1 - 7);
        }
        other => panic!("{:?}", other),
    }
}

#[test]
fn line_over_the_limit_is_refused() {
    let (mut s, id) = open();
    let mut line = b"ADDJOB q 300 ".to_vec();
    line.resize(MAX_BUFFER_SIZE, b'a');
    line.push(b'\n');
    assert_eq!(line.len(), MAX_BUFFER_SIZE + 1);
    assert!(matches!(
        read(&mut s, id, &line),
        Action::Arm(Interest::Writable)
    ));
    assert_eq!(s.pending(id), Some(&b"-1 Error\n"[..]));
    assert!(s.is_open(id));
    // The connection remains usable for the next command.
    assert!(matches!(
        s.handle_to_write(id, WriteEvent::Written(9)),
        Action::Arm(Interest::Readable)
    ));
    match read(&mut s, id, b"HELLO\n") {
        Action::Dispatch(req) => assert_eq!(req.cmd, Command::HELLO),
        other => panic!("{:?}", other),
    }
}

#[test]
fn limit_counts_what_was_received_before() {
    let (mut s, id) = open();
    let chunk = vec![b'a'; 128 * 1024];
    let mut got = 0;
    while got + chunk.len() <= MAX_BUFFER_SIZE {
        assert!(matches!(
            read(&mut s, id, &chunk),
            Action::Arm(Interest::Readable)
        ));
        got += chunk.len();
    }
    assert_eq!(got, 8 * 128 * 1024);
    let rest = vec![b'a'; MAX_BUFFER_SIZE - got];
    assert!(matches!(
        read(&mut s, id, &rest),
        Action::Arm(Interest::Readable)
    ));
    assert!(matches!(
        read(&mut s, id, b"\n"),
        Action::Arm(Interest::Writable)
    ));
    assert_eq!(s.pending(id), Some(&b"-1 Error\n"[..]));
}

#[test]
fn reply_is_staged_for_an_open_connection() {
    let (mut s, id) = open();
    let rep = Reply {
        token: id,
        status: 1,
        data: b"abc".to_vec(),
    };
    assert!(matches!(s.wake(&rep), Action::Arm(Interest::Writable)));
    assert_eq!(s.pending(id), Some(&b"1 abc\n"[..]));
}

#[test]
fn reply_for_a_closed_connection_is_dropped() {
    let (mut s, id) = open();
    assert!(matches!(read(&mut s, id, b"HELLO\n"), Action::Dispatch(_)));
    assert!(matches!(read(&mut s, id, b""), Action::Close));
    let rep = Reply {
        token: id,
        status: 0,
        data: b"Hello".to_vec(),
    };
    assert!(matches!(s.wake(&rep), Action::Keep));
    assert!(!s.is_open(id));
    assert_eq!(s.pending(id), None);
    let other = s.serve();
    assert!(matches!(s.wake(&rep), Action::Keep));
    assert_eq!(s.pending(other), Some(&b""[..]));
}

#[test]
fn short_write_keeps_the_tail() {
    let (mut s, id) = open();
    s.wake(&Reply {
        token: id,
        status: 1,
        data: b"abcdef".to_vec(),
    });
    assert_eq!(s.pending(id), Some(&b"1 abcdef\n"[..]));
    assert!(matches!(
        s.handle_to_write(id, WriteEvent::Written(3)),
        Action::Arm(Interest::Writable)
    ));
    assert_eq!(s.pending(id), Some(&b"bcdef\n"[..]));
    assert!(matches!(
        s.handle_to_write(id, WriteEvent::Written(0)),
        Action::Arm(Interest::Writable)
    ));
    assert_eq!(s.pending(id), Some(&b"bcdef\n"[..]));
    assert!(matches!(
        s.handle_to_write(id, WriteEvent::Written(6)),
        Action::Arm(Interest::Readable)
    ));
    assert_eq!(s.pending(id), Some(&b""[..]));
}

#[test]
fn write_failures() {
    let (mut s, id) = open();
    s.wake(&Reply::error(id));
    assert!(matches!(
        s.handle_to_write(id, WriteEvent::Failed(IoFailure::WouldBlock)),
        Action::Arm(Interest::Writable)
    ));
    assert!(matches!(
        s.handle_to_write(id, WriteEvent::Failed(IoFailure::Interrupted)),
        Action::Arm(Interest::Writable)
    ));
    assert!(matches!(
        s.handle_to_write(id, WriteEvent::Failed(IoFailure::Other)),
        Action::Keep
    ));
    assert_eq!(s.pending(id), Some(&b"-1 Error\n"[..]));
    assert!(s.is_open(id));
}

#[test]
fn shutdown_request_is_terminate_from_the_waker() {
    assert!(Server::shutdown_request(false).is_none());
    let req = Server::shutdown_request(true).unwrap();
    assert_eq!(req.token, WAKER);
    assert_eq!(req.cmd, Command::TERMINATE);
    assert!(req.arg.is_empty());
}

#[test]
fn sig_reads_the_shared_flag() {
    let flag = Arc::new(AtomicBool::new(false));
    let sig = Sig::new(flag.clone());
    assert!(Arc::ptr_eq(&sig.stat, &flag));
    assert!(!sig.is_set());
    flag.store(true, Ordering::Relaxed);
    assert!(sig.is_set());
}
