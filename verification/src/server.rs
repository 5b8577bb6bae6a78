//! The connection table and the framing state machine of the front end.
//!
//! The event loop that owns the sockets hands each readiness event to the
//! table and carries out the action that comes back.

use crate::command::Command;
use crate::field::{copy_range, field_len, find_delimiter};
use crate::message::{Reply, ReplyView, Request, RequestView, TERMINATION};
use std::collections::HashMap;
use vstd::prelude::*;
use vstd::slice::slice_subrange;

verus! {

broadcast use vstd::std_specs::hash::group_hash_axioms;

/// The id under which the listening socket is registered.
pub const SERVER: usize = 0;

/// The id under which the waker is registered.
pub const WAKER: usize = 1;

/// The first id that a connection can get.
pub const START_POINT: usize = 2;

/// The most bytes that a connection may have received without a complete
/// line: one mebibyte and one kibibyte.
pub const MAX_BUFFER_SIZE: usize = 1049600;

/// The id that follows `t`: the next number, or `START_POINT` after the
/// largest.
pub open spec fn successor(t: usize) -> usize {
    if t == usize::MAX {
        START_POINT
    } else {
        (t + 1) as usize
    }
}

/// Hands out the current id and moves the counter to its successor, which
/// wraps to `START_POINT`. A counter that starts at `START_POINT` or above
/// never hands out the ids of the listener and the waker.
pub fn next(current: &mut usize) -> (r: usize)
    ensures
        r == *old(current),
        *final(current) == successor(*old(current)),
        *old(current) >= START_POINT ==> r >= START_POINT && *final(current) >= START_POINT,
{
    let r: usize = *current;
    if r == usize::MAX {
        *current = START_POINT;
    } else {
        *current = r + 1;
    }
    r
}

/// Why a read or a write did not transfer bytes.
#[derive(Debug, Clone, Copy, PartialEq, Eq, Structural)]
pub enum IoFailure {
    WouldBlock,
    Interrupted,
    Other,
}

/// Whether the socket was not ready for the operation.
pub fn would_block(err: &IoFailure) -> (r: bool)
    ensures
        r == (*err == IoFailure::WouldBlock),
{
    match err {
        IoFailure::WouldBlock => true,
        _ => false,
    }
}

/// Whether the operation was interrupted before it transferred anything.
pub fn interrupted(err: &IoFailure) -> (r: bool)
    ensures
        r == (*err == IoFailure::Interrupted),
{
    match err {
        IoFailure::Interrupted => true,
        _ => false,
    }
}

/// The readiness that a connection waits for.
#[derive(Debug, Clone, Copy, PartialEq, Eq, Structural)]
pub enum Interest {
    Readable,
    Writable,
}

/// What came of reading from a connection: the bytes read, none of them
/// where the peer has closed, or a failure.
pub enum ReadEvent<'a> {
    Bytes(&'a [u8]),
    Failed(IoFailure),
}

/// What came of writing the pending reply: the number of bytes written, or a
/// failure.
#[derive(Debug, Clone, Copy, PartialEq, Eq, Structural)]
pub enum WriteEvent {
    Written(usize),
    Failed(IoFailure),
}

/// What the event loop does with a connection after an event.
#[derive(Debug)]
pub enum Action {
    /// Leave the connection as it is, armed for nothing new.
    Keep,
    /// Arm the connection for the given readiness.
    Arm(Interest),
    /// Forget the connection, which closes it.
    Close,
    /// Shut the socket down in both directions and forget the connection.
    Shutdown,
    /// Send the request to the queue manager; the connection stays unarmed
    /// until the reply arrives.
    Dispatch(Request),
}

/// A read event as a mathematical value.
pub enum ReadEventView {
    Bytes(Seq<u8>),
    Failed(IoFailure),
}

/// An action as a mathematical value.
pub enum ActionView {
    Keep,
    Arm(Interest),
    Close,
    Shutdown,
    Dispatch(RequestView),
}

impl<'a> View for ReadEvent<'a> {
    type V = ReadEventView;

    open spec fn view(&self) -> ReadEventView {
        match *self {
            ReadEvent::Bytes(b) => ReadEventView::Bytes(b@),
            ReadEvent::Failed(e) => ReadEventView::Failed(e),
        }
    }
}

impl View for Action {
    type V = ActionView;

    open spec fn view(&self) -> ActionView {
        match *self {
            Action::Keep => ActionView::Keep,
            Action::Arm(i) => ActionView::Arm(i),
            Action::Close => ActionView::Close,
            Action::Shutdown => ActionView::Shutdown,
            Action::Dispatch(req) => ActionView::Dispatch(req@),
        }
    }
}

/// The buffers of a connection as mathematical values.
pub struct ConnectionView {
    pub reply: Seq<u8>,
    pub received_data: Seq<u8>,
}

impl ConnectionView {
    /// A connection with nothing received and nothing to send.
    pub open spec fn idle() -> ConnectionView {
        ConnectionView { reply: Seq::empty(), received_data: Seq::empty() }
    }

    /// A connection with nothing received and the canonical error reply to
    /// send.
    pub open spec fn refused(token: usize) -> ConnectionView {
        ConnectionView { reply: ReplyView::error(token).wire(), received_data: Seq::empty() }
    }
}

/// The buffers of a connection: the reply bytes not yet written, and the
/// bytes received that do not yet make a line.
#[derive(Debug)]
pub struct Connection {
    pub reply: Vec<u8>,
    pub received_data: Vec<u8>,
}

impl View for Connection {
    type V = ConnectionView;

    open spec fn view(&self) -> ConnectionView {
        ConnectionView { reply: self.reply@, received_data: self.received_data@ }
    }
}

impl Connection {
    /// A connection with empty buffers.
    pub fn new() -> (c: Connection)
        ensures
            c@ == ConnectionView::idle(),
    {
        Connection { reply: Vec::new(), received_data: Vec::new() }
    }

    /// Empties both buffers.
    pub fn clean(&mut self)
        ensures
            final(self)@ == ConnectionView::idle(),
    {
        self.reply = Vec::new();
        self.received_data = Vec::new();
    }
}

/// What a line, taken without its terminator, asks for.
pub enum Line {
    /// Nothing: the line is empty.
    Empty,
    /// To close the connection.
    Quit,
    /// A command for the queue manager, with its argument.
    Forward(Command, Seq<u8>),
    /// Nothing that the protocol knows.
    Unknown,
}

/// The argument of a line: what follows the first separator, or nothing
/// where there is none.
pub open spec fn line_arg(line: Seq<u8>) -> Seq<u8> {
    if field_len(line) < line.len() {
        line.skip(field_len(line) as int + 1)
    } else {
        Seq::empty()
    }
}

/// Reads a line: the bytes up to the first separator name the command, and
/// what follows the separator is its argument.
pub open spec fn parse_line(line: Seq<u8>) -> Line {
    match Command::named(line.take(field_len(line) as int)) {
        Some(Command::QUIT) => Line::Quit,
        Some(cmd) => Line::Forward(cmd, line_arg(line)),
        None => if line.len() == 0 {
            Line::Empty
        } else {
            Line::Unknown
        },
    }
}

/// The counter of connection ids and the table of live connections.
pub struct ServerView {
    pub token: usize,
    pub connections: Map<usize, ConnectionView>,
}

impl ServerView {
    /// The counter and every connection id are `START_POINT` or above, and
    /// no connection holds more received bytes than `MAX_BUFFER_SIZE`.
    pub open spec fn wf(self) -> bool {
        &&& self.token >= START_POINT
        &&& forall|k: usize| #[trigger]
            self.connections.contains_key(k) ==> k >= START_POINT
                && self.connections[k].received_data.len() <= MAX_BUFFER_SIZE
    }

    /// The state after the connection `token` got the buffers `c`.
    pub open spec fn with(self, token: usize, c: ConnectionView) -> ServerView {
        ServerView { connections: self.connections.insert(token, c), ..self }
    }

    /// The state after the connection `token` was forgotten.
    pub open spec fn without(self, token: usize) -> ServerView {
        ServerView { connections: self.connections.remove(token), ..self }
    }

    /// What follows from `chunk`, which is not empty, arriving on the
    /// connection `token`.
    pub open spec fn on_bytes(self, token: usize, chunk: Seq<u8>) -> (ServerView, ActionView) {
        let c = self.connections[token];
        let data = c.received_data + chunk;
        if chunk.len() + c.received_data.len() > MAX_BUFFER_SIZE {
            (self.with(token, ConnectionView::refused(token)), ActionView::Arm(Interest::Writable))
        } else if data.last() != TERMINATION {
            (
                self.with(token, ConnectionView { received_data: data, ..c }),
                ActionView::Arm(Interest::Readable),
            )
        } else {
            match parse_line(data.drop_last()) {
                Line::Empty => (
                    self.with(token, ConnectionView::idle()),
                    ActionView::Arm(Interest::Readable),
                ),
                Line::Quit => (self.without(token), ActionView::Shutdown),
                Line::Forward(cmd, arg) => (
                    self.with(token, ConnectionView::idle()),
                    ActionView::Dispatch(RequestView { token, cmd, arg }),
                ),
                Line::Unknown => (
                    self.with(token, ConnectionView::refused(token)),
                    ActionView::Arm(Interest::Writable),
                ),
            }
        }
    }

    /// What follows from a read event on the connection `token`. An event
    /// for a connection that is not in the table changes nothing.
    pub open spec fn on_read(self, token: usize, event: ReadEventView) -> (ServerView, ActionView) {
        if !self.connections.contains_key(token) {
            (self, ActionView::Keep)
        } else {
            match event {
                ReadEventView::Failed(IoFailure::WouldBlock) => (
                    self,
                    ActionView::Arm(Interest::Readable),
                ),
                ReadEventView::Failed(IoFailure::Interrupted) => (
                    self,
                    ActionView::Arm(Interest::Readable),
                ),
                ReadEventView::Failed(IoFailure::Other) => (
                    self.without(token),
                    ActionView::Shutdown,
                ),
                ReadEventView::Bytes(chunk) => if chunk.len() == 0 {
                    (self.without(token), ActionView::Close)
                } else {
                    self.on_bytes(token, chunk)
                },
            }
        }
    }

    /// What follows from a write event on the connection `token`.
    pub open spec fn on_write(self, token: usize, event: WriteEvent) -> (ServerView, ActionView) {
        if !self.connections.contains_key(token) {
            (self, ActionView::Keep)
        } else {
            let c = self.connections[token];
            match event {
                WriteEvent::Written(n) => if n < c.reply.len() {
                    (
                        self.with(token, ConnectionView { reply: c.reply.skip(n as int), ..c }),
                        ActionView::Arm(Interest::Writable),
                    )
                } else {
                    (self.with(token, ConnectionView::idle()), ActionView::Arm(Interest::Readable))
                },
                WriteEvent::Failed(IoFailure::WouldBlock) => (
                    self,
                    ActionView::Arm(Interest::Writable),
                ),
                WriteEvent::Failed(IoFailure::Interrupted) => (
                    self,
                    ActionView::Arm(Interest::Writable),
                ),
                WriteEvent::Failed(IoFailure::Other) => (self, ActionView::Keep),
            }
        }
    }

    /// What follows from a reply of the queue manager: it is staged on the
    /// connection it is addressed to, or dropped where that is gone.
    pub open spec fn on_reply(self, reply: ReplyView) -> (ServerView, ActionView) {
        if self.connections.contains_key(reply.token) {
            (
                self.with(
                    reply.token,
                    ConnectionView { reply: reply.wire(), ..self.connections[reply.token] },
                ),
                ActionView::Arm(Interest::Writable),
            )
        } else {
            (self, ActionView::Keep)
        }
    }
}

/// The front end's state: the counter of connection ids and the live
/// connections by id.
pub struct Server {
    token: usize,
    connections: HashMap<usize, Connection>,
}

impl View for Server {
    type V = ServerView;

    closed spec fn view(&self) -> ServerView {
        ServerView {
            token: self.token,
            connections: Map::new(
                |k: usize| self.connections@.contains_key(k),
                |k: usize| self.connections@[k]@,
            ),
        }
    }
}

impl Server {
    /// The state is sound: see `ServerView::wf`.
    pub open spec fn wf(&self) -> bool {
        self@.wf()
    }

    /// A front end without connections, whose first id is `START_POINT`.
    pub fn new() -> (s: Server)
        ensures
            s.wf(),
            s@.token == START_POINT,
            s@.connections == Map::<usize, ConnectionView>::empty(),
    {
        let s = Server { token: START_POINT, connections: HashMap::new() };
        proof {
            assert(s@.connections =~= Map::<usize, ConnectionView>::empty());
        }
        s
    }

    /// Whether the connection `token` is in the table.
    pub fn is_open(&self, token: usize) -> (r: bool)
        ensures
            r == self@.connections.contains_key(token),
    {
        self.connections.get(&token).is_some()
    }

    /// The reply bytes of the connection `token` that are yet to be written.
    pub fn pending(&self, token: usize) -> (r: Option<&[u8]>)
        ensures
            r.is_some() == self@.connections.contains_key(token),
            r matches Some(bytes) ==> bytes@ == self@.connections[token].reply,
    {
        match self.connections.get(&token) {
            Some(c) => Some(c.reply.as_slice()),
            None => None,
        }
    }

    /// Takes a newly accepted connection into the table under the next id,
    /// with empty buffers, and returns the id, under which the connection is
    /// to be armed for reading.
    pub fn serve(&mut self) -> (id: usize)
        requires
            old(self).wf(),
        ensures
            final(self).wf(),
            id == old(self)@.token,
            id >= START_POINT,
            final(self)@.token == successor(old(self)@.token),
            final(self)@.connections == old(self)@.connections.insert(id, ConnectionView::idle()),
    {
        let id = next(&mut self.token);
        let _ = self.connections.insert(id, Connection::new());
        proof {
            assert(self@.connections =~= old(self)@.connections.insert(id, ConnectionView::idle()));
        }
        id
    }

    /// Stages a reply of the queue manager on the connection it is addressed
    /// to, which is then to be armed for writing. A reply to a connection
    /// that is gone is dropped, and nothing changes.
    pub fn wake(&mut self, rep: &Reply) -> (r: Action)
        requires
            old(self).wf(),
        ensures
            final(self).wf(),
            final(self)@ == old(self)@.on_reply(rep@).0,
            r@ == old(self)@.on_reply(rep@).1,
    {
        let token = rep.token;
        match self.connections.remove(&token) {
            Some(mut c) => {
                c.reply = rep.message();
                let _ = self.connections.insert(token, c);
                proof {
                    assert(self@.connections =~= old(self)@.on_reply(rep@).0.connections);
                }
                Action::Arm(Interest::Writable)
            },
            None => {
                proof {
                    assert(self@.connections =~= old(self)@.connections);
                }
                Action::Keep
            },
        }
    }

    /// The request that stops the queue manager, where the shutdown flag is
    /// set; nothing where it is not.
    pub fn shutdown_request(flag: bool) -> (r: Option<Request>)
        ensures
            r.is_some() == flag,
            r matches Some(req) ==> req@ == (RequestView {
                token: WAKER,
                cmd: Command::TERMINATE,
                arg: Seq::empty(),
            }),
    {
        if flag {
            Some(Request { token: WAKER, cmd: Command::TERMINATE, arg: Vec::new() })
        } else {
            None
        }
    }

    /// Takes in the outcome of writing the pending reply of the connection
    /// `token`. After a short write the unwritten tail stays pending and the
    /// connection is armed for writing again; after a full one the buffers
    /// are emptied and it is armed for reading. A write that was not ready
    /// or was interrupted is tried again; any other failure leaves the
    /// connection as it is.
    pub fn handle_to_write(&mut self, token: usize, event: WriteEvent) -> (r: Action)
        requires
            old(self).wf(),
        ensures
            final(self).wf(),
            final(self)@ == old(self)@.on_write(token, event).0,
            r@ == old(self)@.on_write(token, event).1,
    {
        if !self.is_open(token) {
            return Action::Keep;
        }
        match event {
            WriteEvent::Written(n) => {
                let mut c = match self.connections.remove(&token) {
                    Some(c) => c,
                    None => {
                        return Action::Keep;
                    },
                };
                if n < c.reply.len() {
                    let tail = copy_range(c.reply.as_slice(), n, c.reply.len());
                    proof {
                        assert(tail@ =~= c.reply@.skip(n as int));
                    }
                    c.reply = tail;
                    let _ = self.connections.insert(token, c);
                    proof {
                        assert(self@.connections =~= old(self)@.on_write(token, event).0.connections);
                    }
                    Action::Arm(Interest::Writable)
                } else {
                    c.clean();
                    let _ = self.connections.insert(token, c);
                    proof {
                        assert(self@.connections =~= old(self)@.on_write(token, event).0.connections);
                    }
                    Action::Arm(Interest::Readable)
                }
            },
            WriteEvent::Failed(err) => {
                if would_block(&err) || interrupted(&err) {
                    Action::Arm(Interest::Writable)
                } else {
                    Action::Keep
                }
            },
        }
    }

    /// Takes in the outcome of reading from the connection `token`.
    ///
    /// No bytes mean that the peer has closed: the connection is forgotten.
    /// Bytes that would take the accumulator over `MAX_BUFFER_SIZE` are
    /// refused: the accumulator is emptied and the canonical error reply is
    /// staged. Otherwise they are appended, and the connection keeps reading
    /// until the last byte is the terminator. The line is then taken from
    /// the accumulator: `QUIT` shuts the connection down; another command
    /// goes to the queue manager with its argument; an empty line is passed
    /// over; anything else gets the canonical error reply.
    ///
    /// A read that was not ready or was interrupted is tried again; any
    /// other failure shuts the connection down.
    pub fn handle_to_read(&mut self, token: usize, event: ReadEvent<'_>) -> (r: Action)
        requires
            old(self).wf(),
        ensures
            final(self).wf(),
            final(self)@ == old(self)@.on_read(token, event@).0,
            r@ == old(self)@.on_read(token, event@).1,
    {
        if !self.is_open(token) {
            return Action::Keep;
        }
        let chunk = match event {
            ReadEvent::Bytes(chunk) => chunk,
            ReadEvent::Failed(err) => {
                if would_block(&err) || interrupted(&err) {
                    return Action::Arm(Interest::Readable);
                }
                let _ = self.connections.remove(&token);
                proof {
                    assert(self@.connections =~= old(self)@.connections.remove(token));
                }
                return Action::Shutdown;
            },
        };
        let mut c = match self.connections.remove(&token) {
            Some(c) => c,
            None => {
                return Action::Keep;
            },
        };
        let ghost c0 = c@;
        proof {
            assert(self@.connections =~= old(self)@.connections.remove(token));
        }
        if chunk.len() == 0 {
            return Action::Close;
        }
        if chunk.len() > MAX_BUFFER_SIZE || c.received_data.len() > MAX_BUFFER_SIZE - chunk.len() {
            c.clean();
            c.reply = Reply::error(token).message();
            let _ = self.connections.insert(token, c);
            proof {
                assert(self@.connections =~= old(self)@.on_read(token, event@).0.connections);
            }
            return Action::Arm(Interest::Writable);
        }
        c.received_data.extend_from_slice(chunk);
        let len = c.received_data.len();
        let ghost data = c0.received_data + chunk@;
        proof {
            assert(c0 == old(self)@.connections[token]);
            assert(c.received_data@ == data);
            assert(data.last() == c.received_data@[len - 1]);
        }
        if c.received_data[len - 1] != TERMINATION {
            let _ = self.connections.insert(token, c);
            proof {
                assert(self@.connections =~= old(self)@.on_read(token, event@).0.connections);
            }
            return Action::Arm(Interest::Readable);
        }
        let line = slice_subrange(c.received_data.as_slice(), 0, len - 1);
        proof {
            assert(line@ =~= (c0.received_data + chunk@).drop_last());
            assert(line@.skip(0) =~= line@);
        }
        let n = find_delimiter(line, 0);
        proof {
            assert(line@.subrange(0, n as int) =~= line@.take(n as int));
        }
        match Command::from(slice_subrange(line, 0, n)) {
            Some(Command::QUIT) => Action::Shutdown,
            Some(cmd) => {
                let arg = if n < line.len() {
                    copy_range(line, n + 1, line.len())
                } else {
                    Vec::new()
                };
                proof {
                    assert(arg@ =~= line_arg(line@));
                }
                c.clean();
                let _ = self.connections.insert(token, c);
                proof {
                    assert(self@.connections =~= old(self)@.on_read(token, event@).0.connections);
                }
                Action::Dispatch(Request { token, cmd, arg })
            },
            None => {
                if len == 1 {
                    c.clean();
                    let _ = self.connections.insert(token, c);
                    proof {
                        assert(self@.connections =~= old(self)@.on_read(
                            token,
                            event@,
                        ).0.connections);
                    }
                    Action::Arm(Interest::Readable)
                } else {
                    c.clean();
                    c.reply = Reply::error(token).message();
                    let _ = self.connections.insert(token, c);
                    proof {
                        assert(self@.connections =~= old(self)@.on_read(
                            token,
                            event@,
                        ).0.connections);
                    }
                    Action::Arm(Interest::Writable)
                }
            },
        }
    }
}

} // verus!
