//! The values that travel between the connections and the queue manager.

use crate::command::Command;
use crate::decimal::{decimal, push_signed_decimal, signed_decimal};
use crate::utils::DELIMITER;
use vstd::prelude::*;

verus! {

/// The byte that ends a line.
pub const TERMINATION: u8 = 0x0A;

/// The status of the canonical error reply.
pub const STATUS_ERROR: i64 = -1;

/// The data of the canonical error reply: the word `Error`.
pub open spec fn error_text() -> Seq<u8> {
    seq![0x45u8, 0x72u8, 0x72u8, 0x6Fu8, 0x72u8]
}

/// One framed line of a connection: who sent it, the command, and the bytes
/// after the command name and its separator.
#[derive(Debug)]
pub struct Request {
    pub token: usize,
    pub cmd: Command,
    pub arg: Vec<u8>,
}

/// The answer to a request, addressed to the connection that sent it.
#[derive(Debug)]
pub struct Reply {
    pub token: usize,
    pub status: i64,
    pub data: Vec<u8>,
}

/// A request as a mathematical value.
pub struct RequestView {
    pub token: usize,
    pub cmd: Command,
    pub arg: Seq<u8>,
}

/// A reply as a mathematical value.
pub struct ReplyView {
    pub token: usize,
    pub status: int,
    pub data: Seq<u8>,
}

impl View for Request {
    type V = RequestView;

    open spec fn view(&self) -> RequestView {
        RequestView { token: self.token, cmd: self.cmd, arg: self.arg@ }
    }
}

impl View for Reply {
    type V = ReplyView;

    open spec fn view(&self) -> ReplyView {
        ReplyView { token: self.token, status: self.status as int, data: self.data@ }
    }
}

impl ReplyView {
    /// The bytes of the reply on the wire: the status in decimal, a space,
    /// the data and the line terminator.
    pub open spec fn wire(self) -> Seq<u8> {
        signed_decimal(self.status) + seq![DELIMITER] + self.data + seq![TERMINATION]
    }

    /// The canonical error reply for `token`.
    pub open spec fn error(token: usize) -> ReplyView {
        ReplyView { token, status: -1, data: error_text() }
    }

    /// The reply for `token` that reports nothing.
    pub open spec fn empty(token: usize) -> ReplyView {
        ReplyView { token, status: 0, data: Seq::empty() }
    }
}

impl Reply {
    /// The bytes of the reply on the wire.
    pub fn message(&self) -> (r: Vec<u8>)
        ensures
            r@ == self@.wire(),
    {
        let mut out: Vec<u8> = Vec::new();
        push_signed_decimal(&mut out, self.status);
        out.push(DELIMITER);
        out.extend_from_slice(self.data.as_slice());
        out.push(TERMINATION);
        proof {
            assert(out@ =~= self@.wire());
        }
        out
    }

    /// The canonical error reply for `token`: status `-1`, data `Error`.
    pub fn error(token: usize) -> (r: Reply)
        ensures
            r@ == ReplyView::error(token),
    {
        let mut data: Vec<u8> = Vec::new();
        data.push(0x45);
        data.push(0x72);
        data.push(0x72);
        data.push(0x6F);
        data.push(0x72);
        proof {
            assert(data@ =~= error_text());
        }
        Reply { token, status: STATUS_ERROR, data }
    }

    /// The reply for `token` with status `0` and no data.
    pub fn empty(token: usize) -> (r: Reply)
        ensures
            r@ == ReplyView::empty(token),
    {
        Reply { token, status: 0, data: Vec::new() }
    }
}

/// The canonical error reply on the wire is `-1 Error` and the terminator.
pub proof fn lemma_error_wire(token: usize)
    ensures
        ReplyView::error(token).wire() == seq![
            0x2Du8,
            0x31u8,
            0x20u8,
            0x45u8,
            0x72u8,
            0x72u8,
            0x6Fu8,
            0x72u8,
            0x0Au8,
        ],
{
    assert(decimal(1) =~= seq![0x31u8]);
    assert(ReplyView::error(token).wire() =~= seq![
        0x2Du8,
        0x31u8,
        0x20u8,
        0x45u8,
        0x72u8,
        0x72u8,
        0x6Fu8,
        0x72u8,
        0x0Au8,
    ]);
}

} // verus!
