//! The commands of the wire protocol and their names.

use crate::field::range_eq;
use crate::utils::{compare, is_prefix_of, lemma_common_prefix_bounds, lemma_prefix_iff_common};
use vstd::prelude::*;
use vstd::string::StringSliceAdditionalSpecFns;
use vstd::utf8::{decode_utf8, encode_utf8, encode_utf8_decode_utf8, valid_utf8};

verus! {

/// A command of the protocol. `TERMINATE` has no name on the wire: it is the
/// request that stops the queue manager from inside the process.
#[derive(Debug, Clone, Copy, PartialEq, Eq, Structural)]
pub enum Command {
    TERMINATE,
    QUIT,
    HELLO,
    ADDJOB,
    GETJOB,
    ACKJOB,
    STATQUE,
    DELQUE,
}

const QUIT: [u8; 4] = [0x51, 0x55, 0x49, 0x54];

const HELLO: [u8; 5] = [0x48, 0x45, 0x4C, 0x4C, 0x4F];

const ADDJOB: [u8; 6] = [0x41, 0x44, 0x44, 0x4A, 0x4F, 0x42];

const GETJOB: [u8; 6] = [0x47, 0x45, 0x54, 0x4A, 0x4F, 0x42];

const ACKJOB: [u8; 6] = [0x41, 0x43, 0x4B, 0x4A, 0x4F, 0x42];

const STATQUE: [u8; 7] = [0x53, 0x54, 0x41, 0x54, 0x51, 0x55, 0x45];

const DELQUE: [u8; 6] = [0x44, 0x45, 0x4C, 0x51, 0x55, 0x45];

const NO_NAME: [u8; 0] = [];

/// The commands that a client may send, in alphabetical order.
pub const ENABLE_COMMANDS: [Command; 7] = [
    Command::ACKJOB,
    Command::ADDJOB,
    Command::DELQUE,
    Command::GETJOB,
    Command::HELLO,
    Command::QUIT,
    Command::STATQUE,
];

/// The upper-case form of a text, as `str::to_uppercase` gives it.
pub uninterp spec fn uppercase(s: Seq<char>) -> Seq<char>;

/// The commands in the order in which completion offers them.
pub open spec fn completion_order() -> Seq<Command> {
    seq![
        Command::ADDJOB,
        Command::GETJOB,
        Command::ACKJOB,
        Command::STATQUE,
        Command::DELQUE,
        Command::QUIT,
        Command::HELLO,
    ]
}

/// The commands whose names begin with `prefix`, in completion order. An
/// empty prefix selects none.
pub open spec fn candidates(prefix: Seq<u8>) -> Seq<Command> {
    if prefix.len() == 0 {
        Seq::empty()
    } else {
        completion_order().filter(|c: Command| is_prefix_of(prefix, c.name()))
    }
}

/// What completion offers for the input `value`: the candidates of its
/// upper-case form, and nothing where it is not UTF-8.
pub open spec fn estimate_of(value: Seq<u8>) -> Seq<Command> {
    if valid_utf8(value) {
        candidates(encode_utf8(uppercase(decode_utf8(value))))
    } else {
        Seq::empty()
    }
}

/// `core::str::from_utf8`: a text exactly when the bytes are valid UTF-8,
/// and then the text whose bytes they are.
#[verifier::external_body]
fn utf8_text(value: &[u8]) -> (r: Option<&str>)
    ensures
        r.is_some() == valid_utf8(value@),
        r matches Some(s) ==> s.spec_bytes() == value@,
{
    match core::str::from_utf8(value) {
        Ok(s) => Some(s),
        Err(_) => None,
    }
}

/// `str::to_uppercase`: the result is the upper-case form of the argument,
/// which depends on the text alone.
#[verifier::external_body]
fn to_upper(s: &str) -> (r: String)
    ensures
        r@ == uppercase(s@),
{
    s.to_uppercase()
}

impl Command {
    /// The name of the command on the wire; `TERMINATE` has the empty name.
    pub open spec fn name(self) -> Seq<u8> {
        match self {
            Command::TERMINATE => Seq::empty(),
            Command::QUIT => seq![0x51u8, 0x55u8, 0x49u8, 0x54u8],
            Command::HELLO => seq![0x48u8, 0x45u8, 0x4Cu8, 0x4Cu8, 0x4Fu8],
            Command::ADDJOB => seq![0x41u8, 0x44u8, 0x44u8, 0x4Au8, 0x4Fu8, 0x42u8],
            Command::GETJOB => seq![0x47u8, 0x45u8, 0x54u8, 0x4Au8, 0x4Fu8, 0x42u8],
            Command::ACKJOB => seq![0x41u8, 0x43u8, 0x4Bu8, 0x4Au8, 0x4Fu8, 0x42u8],
            Command::STATQUE => seq![0x53u8, 0x54u8, 0x41u8, 0x54u8, 0x51u8, 0x55u8, 0x45u8],
            Command::DELQUE => seq![0x44u8, 0x45u8, 0x4Cu8, 0x51u8, 0x55u8, 0x45u8],
        }
    }

    /// The command that a client names by `value`, if any.
    pub open spec fn named(value: Seq<u8>) -> Option<Command> {
        if value == Command::ADDJOB.name() {
            Some(Command::ADDJOB)
        } else if value == Command::GETJOB.name() {
            Some(Command::GETJOB)
        } else if value == Command::ACKJOB.name() {
            Some(Command::ACKJOB)
        } else if value == Command::STATQUE.name() {
            Some(Command::STATQUE)
        } else if value == Command::DELQUE.name() {
            Some(Command::DELQUE)
        } else if value == Command::QUIT.name() {
            Some(Command::QUIT)
        } else if value == Command::HELLO.name() {
            Some(Command::HELLO)
        } else {
            None
        }
    }

    /// The command whose wire name is exactly `value`. Names are upper case;
    /// `TERMINATE` cannot be named.
    pub fn from(value: &[u8]) -> (r: Option<Command>)
        ensures
            r == Command::named(value@),
            r matches Some(c) ==> c != Command::TERMINATE && c.name() == value@,
    {
        if Self::is_name(value, Command::ADDJOB) {
            Some(Command::ADDJOB)
        } else if Self::is_name(value, Command::GETJOB) {
            Some(Command::GETJOB)
        } else if Self::is_name(value, Command::ACKJOB) {
            Some(Command::ACKJOB)
        } else if Self::is_name(value, Command::STATQUE) {
            Some(Command::STATQUE)
        } else if Self::is_name(value, Command::DELQUE) {
            Some(Command::DELQUE)
        } else if Self::is_name(value, Command::QUIT) {
            Some(Command::QUIT)
        } else if Self::is_name(value, Command::HELLO) {
            Some(Command::HELLO)
        } else {
            None
        }
    }

    /// Whether `value` is the wire name of `cmd`.
    fn is_name(value: &[u8], cmd: Command) -> (r: bool)
        ensures
            r == (value@ == cmd.name()),
    {
        let name = cmd.as_str();
        proof {
            assert(value@.subrange(0, value@.len() as int) =~= value@);
        }
        range_eq(value, 0, value.len(), name)
    }

    /// The wire name of the command.
    pub fn as_str(&self) -> (r: &'static [u8])
        ensures
            r@ == self.name(),
    {
        match self {
            Command::TERMINATE => {
                let a: &'static [u8; 0] = &NO_NAME;
                assert(a@ =~= self.name());
                a.as_slice()
            },
            Command::QUIT => {
                let a: &'static [u8; 4] = &QUIT;
                assert(a@ =~= self.name());
                a.as_slice()
            },
            Command::HELLO => {
                let a: &'static [u8; 5] = &HELLO;
                assert(a@ =~= self.name());
                a.as_slice()
            },
            Command::ADDJOB => {
                let a: &'static [u8; 6] = &ADDJOB;
                assert(a@ =~= self.name());
                a.as_slice()
            },
            Command::GETJOB => {
                let a: &'static [u8; 6] = &GETJOB;
                assert(a@ =~= self.name());
                a.as_slice()
            },
            Command::ACKJOB => {
                let a: &'static [u8; 6] = &ACKJOB;
                assert(a@ =~= self.name());
                a.as_slice()
            },
            Command::STATQUE => {
                let a: &'static [u8; 7] = &STATQUE;
                assert(a@ =~= self.name());
                a.as_slice()
            },
            Command::DELQUE => {
                let a: &'static [u8; 6] = &DELQUE;
                assert(a@ =~= self.name());
                a.as_slice()
            },
        }
    }

    /// Whether `prefix`, which is not empty, is a leading part of the name of
    /// `cmd`.
    fn begins(prefix: &[u8], cmd: Command) -> (r: bool)
        requires
            prefix@.len() > 0,
        ensures
            r == is_prefix_of(prefix@, cmd.name()),
    {
        let last: usize = prefix.len() - 1;
        let found = compare(prefix, cmd.as_str());
        proof {
            lemma_prefix_iff_common(prefix@, cmd.name());
            lemma_common_prefix_bounds(prefix@, cmd.name());
        }
        match found {
            Some(at) => at == last,
            None => false,
        }
    }

    /// The commands whose names begin with `prefix`, in completion order;
    /// none for the empty prefix.
    pub fn with_prefix(prefix: &[u8]) -> (r: Vec<Command>)
        ensures
            r@ == candidates(prefix@),
    {
        let mut cmds: Vec<Command> = Vec::new();
        if prefix.len() == 0 {
            return cmds;
        }
        let order: [Command; 7] = [
            Command::ADDJOB,
            Command::GETJOB,
            Command::ACKJOB,
            Command::STATQUE,
            Command::DELQUE,
            Command::QUIT,
            Command::HELLO,
        ];
        let ghost pred = |c: Command| is_prefix_of(prefix@, c.name());
        assert(order@ =~= completion_order());
        let mut i: usize = 0;
        while i < 7
            invariant
                i <= 7,
                prefix@.len() > 0,
                order@ == completion_order(),
                pred == (|c: Command| is_prefix_of(prefix@, c.name())),
                cmds@ == order@.take(i as int).filter(pred),
            decreases 7 - i,
        {
            let c: Command = order[i];
            proof {
                assert(order@.take(i + 1).drop_last() =~= order@.take(i as int));
                reveal(Seq::filter);
            }
            if Self::begins(prefix, c) {
                cmds.push(c);
            }
            i += 1;
        }
        proof {
            assert(order@.take(7) =~= order@);
        }
        cmds
    }

    /// What completion offers for the input `value`: the commands whose names
    /// begin with its upper-case form. Input that is not UTF-8 gets none.
    pub fn estimate(value: &[u8]) -> (r: Vec<Command>)
        ensures
            r@ == estimate_of(value@),
    {
        match utf8_text(value) {
            Some(text) => {
                proof {
                    encode_utf8_decode_utf8(text@);
                }
                let upper = to_upper(text);
                Self::with_prefix(upper.as_str().as_bytes())
            },
            None => Vec::new(),
        }
    }
}

} // verus!
