//! The state of a connection of the micro transport protocol.

use crate::bytes::{append_slice, copy_slice, sub_slice};
use vstd::prelude::*;

verus! {

/// How the state of a socket changed.
#[allow(non_camel_case_types)]
#[derive(Debug, Clone, Copy, PartialEq, Eq, Structural)]
pub enum UTP_STATE {
    /// The socket is connected, which implies that it can be written to.
    CONNECT,
    /// The socket can be written to.
    WRITABLE,
    /// The connection was closed.
    EOF,
    /// The socket is gone; all data was sent if possible.
    DESTROYING,
}

/// What went wrong with a socket.
#[allow(non_camel_case_types)]
#[derive(Debug, Clone, Copy, PartialEq, Eq, Structural)]
pub enum UTP_ERROR {
    ECONNREFUSED,
    ECONNRESET,
    ETIMEDOUT,
}

/// What a callback is for.
#[allow(non_camel_case_types)]
#[derive(Debug, Clone, Copy, PartialEq, Eq, Structural)]
pub enum UTP_CALLBACK {
    ON_FIREWALL,
    ON_ACCEPT,
    ON_CONNECT,
    ON_ERROR,
    ON_READ,
    ON_OVERHEAD_STATISTICS,
    ON_STATE_CHANGE,
    GET_READ_BUFFER_SIZE,
    ON_DELAY_SAMPLE,
    GET_UDP_MTU,
    GET_UDP_OVERHEAD,
    GET_MILLISECONDS,
    GET_MICROSECONDS,
    GET_RANDOM,
    LOG,
    SENDTO,
    LOG_NORMAL,
    LOG_MTU,
    LOG_DEBUG,
    SNDBUF,
    RCVBUF,
    TARGET_DELAY,
    ARRAY_SIZE,
}

impl UTP_STATE {
    /// The change that a number stands for.
    pub open spec fn spec_from_code(code: i32) -> Option<UTP_STATE> {
        match code {
            1 => Some(UTP_STATE::CONNECT),
            2 => Some(UTP_STATE::WRITABLE),
            3 => Some(UTP_STATE::EOF),
            4 => Some(UTP_STATE::DESTROYING),
            _ => None,
        }
    }

    /// The change that a number stands for.
    pub fn from_code(code: i32) -> (r: Option<UTP_STATE>)
        ensures
            r == UTP_STATE::spec_from_code(code),
    {
        match code {
            1 => Some(UTP_STATE::CONNECT),
            2 => Some(UTP_STATE::WRITABLE),
            3 => Some(UTP_STATE::EOF),
            4 => Some(UTP_STATE::DESTROYING),
            _ => None,
        }
    }
}

impl UTP_ERROR {
    /// The error that a number stands for.
    pub open spec fn spec_from_code(code: i32) -> Option<UTP_ERROR> {
        match code {
            0 => Some(UTP_ERROR::ECONNREFUSED),
            1 => Some(UTP_ERROR::ECONNRESET),
            2 => Some(UTP_ERROR::ETIMEDOUT),
            _ => None,
        }
    }

    /// The error that a number stands for.
    pub fn from_code(code: i32) -> (r: Option<UTP_ERROR>)
        ensures
            r == UTP_ERROR::spec_from_code(code),
    {
        match code {
            0 => Some(UTP_ERROR::ECONNREFUSED),
            1 => Some(UTP_ERROR::ECONNRESET),
            2 => Some(UTP_ERROR::ETIMEDOUT),
            _ => None,
        }
    }

    /// What went wrong, in words.
    pub fn message(&self) -> (r: &'static str)
        ensures
            r@ == (match *self {
                UTP_ERROR::ECONNREFUSED => "Connection refused"@,
                UTP_ERROR::ECONNRESET => "Connection reset"@,
                UTP_ERROR::ETIMEDOUT => "Timed out"@,
            }),
    {
        match *self {
            UTP_ERROR::ECONNREFUSED => "Connection refused",
            UTP_ERROR::ECONNRESET => "Connection reset",
            UTP_ERROR::ETIMEDOUT => "Timed out",
        }
    }
}

impl UTP_CALLBACK {
    /// The number that stands for a callback.
    pub open spec fn spec_code(self) -> i32 {
        match self {
            UTP_CALLBACK::ON_FIREWALL => 0,
            UTP_CALLBACK::ON_ACCEPT => 1,
            UTP_CALLBACK::ON_CONNECT => 2,
            UTP_CALLBACK::ON_ERROR => 3,
            UTP_CALLBACK::ON_READ => 4,
            UTP_CALLBACK::ON_OVERHEAD_STATISTICS => 5,
            UTP_CALLBACK::ON_STATE_CHANGE => 6,
            UTP_CALLBACK::GET_READ_BUFFER_SIZE => 7,
            UTP_CALLBACK::ON_DELAY_SAMPLE => 8,
            UTP_CALLBACK::GET_UDP_MTU => 9,
            UTP_CALLBACK::GET_UDP_OVERHEAD => 10,
            UTP_CALLBACK::GET_MILLISECONDS => 11,
            UTP_CALLBACK::GET_MICROSECONDS => 12,
            UTP_CALLBACK::GET_RANDOM => 13,
            UTP_CALLBACK::LOG => 14,
            UTP_CALLBACK::SENDTO => 15,
            UTP_CALLBACK::LOG_NORMAL => 16,
            UTP_CALLBACK::LOG_MTU => 17,
            UTP_CALLBACK::LOG_DEBUG => 18,
            UTP_CALLBACK::SNDBUF => 19,
            UTP_CALLBACK::RCVBUF => 20,
            UTP_CALLBACK::TARGET_DELAY => 21,
            UTP_CALLBACK::ARRAY_SIZE => 22,
        }
    }

    /// The number that stands for a callback.
    pub fn code(&self) -> (r: i32)
        ensures
            r == self.spec_code(),
    {
        match *self {
            UTP_CALLBACK::ON_FIREWALL => 0,
            UTP_CALLBACK::ON_ACCEPT => 1,
            UTP_CALLBACK::ON_CONNECT => 2,
            UTP_CALLBACK::ON_ERROR => 3,
            UTP_CALLBACK::ON_READ => 4,
            UTP_CALLBACK::ON_OVERHEAD_STATISTICS => 5,
            UTP_CALLBACK::ON_STATE_CHANGE => 6,
            UTP_CALLBACK::GET_READ_BUFFER_SIZE => 7,
            UTP_CALLBACK::ON_DELAY_SAMPLE => 8,
            UTP_CALLBACK::GET_UDP_MTU => 9,
            UTP_CALLBACK::GET_UDP_OVERHEAD => 10,
            UTP_CALLBACK::GET_MILLISECONDS => 11,
            UTP_CALLBACK::GET_MICROSECONDS => 12,
            UTP_CALLBACK::GET_RANDOM => 13,
            UTP_CALLBACK::LOG => 14,
            UTP_CALLBACK::SENDTO => 15,
            UTP_CALLBACK::LOG_NORMAL => 16,
            UTP_CALLBACK::LOG_MTU => 17,
            UTP_CALLBACK::LOG_DEBUG => 18,
            UTP_CALLBACK::SNDBUF => 19,
            UTP_CALLBACK::RCVBUF => 20,
            UTP_CALLBACK::TARGET_DELAY => 21,
            UTP_CALLBACK::ARRAY_SIZE => 22,
        }
    }

    /// What a callback is for that carries data: sending, a change of the state, an error,
    /// data that came, or a connection that came; nothing for the others.
    pub fn handled(code: i32) -> (r: Option<UTP_CALLBACK>)
        ensures
            match r {
                Some(cb) => cb.spec_code() == code && (cb is SENDTO || cb is ON_STATE_CHANGE
                    || cb is ON_ERROR || cb is ON_READ || cb is ON_ACCEPT),
                None => code != 15 && code != 6 && code != 3 && code != 4 && code != 1,
            },
    {
        match code {
            15 => Some(UTP_CALLBACK::SENDTO),
            6 => Some(UTP_CALLBACK::ON_STATE_CHANGE),
            3 => Some(UTP_CALLBACK::ON_ERROR),
            4 => Some(UTP_CALLBACK::ON_READ),
            1 => Some(UTP_CALLBACK::ON_ACCEPT),
            _ => None,
        }
    }
}

/// Who is to be woken: who waits to read, and who waits to write.
#[derive(Debug, Clone, Copy, PartialEq, Eq, Structural)]
pub struct Wake {
    pub reader: bool,
    pub writer: bool,
}

/// What comes of waiting for a connection.
#[derive(Debug, Clone, Copy, PartialEq, Eq, Structural)]
pub enum ConnectPoll {
    Connected,
    Failed(UTP_ERROR),
    Pending,
}

/// What comes of reading.
#[derive(Debug)]
pub enum ReadPoll {
    /// Data; nothing at the end.
    Data(Vec<u8>),
    Failed(UTP_ERROR),
    Pending,
}

/// Whether data can be written.
#[derive(Debug, Clone, Copy, PartialEq, Eq, Structural)]
pub enum WriteCheck {
    /// Nothing is written.
    Nothing,
    Failed(UTP_ERROR),
    /// Hand the data to the socket.
    Write,
}

/// What comes of writing.
#[derive(Debug, Clone, Copy, PartialEq, Eq, Structural)]
pub enum WritePoll {
    Written(usize),
    /// The socket refused the data.
    Refused,
    Pending,
}

/// The state of a socket.
#[derive(Debug)]
pub struct UtpSocketState {
    pub eof: bool,
    pub connected: bool,
    pub read_buf: Vec<u8>,
    /// Whether anyone waits to read.
    pub reader: bool,
    /// Whether anyone waits to write or for the connection.
    pub writer: bool,
    pub error_code: Option<UTP_ERROR>,
}

impl UtpSocketState {
    /// A socket that is not connected.
    pub fn new() -> (r: UtpSocketState)
        ensures
            !r.eof,
            !r.connected,
            r.read_buf@ == Seq::<u8>::empty(),
            !r.reader,
            !r.writer,
            r.error_code is None,
    {
        UtpSocketState {
            eof: false,
            connected: false,
            read_buf: Vec::new(),
            reader: false,
            writer: false,
            error_code: None,
        }
    }

    /// Takes note that the state changed.
    pub fn on_state_change(&mut self, state: UTP_STATE) -> (r: Wake)
        ensures
            final(self).eof == (old(self).eof || state is EOF),
            final(self).connected == (old(self).connected || state is CONNECT),
            final(self).read_buf == old(self).read_buf,
            final(self).error_code == old(self).error_code,
            r.reader == (old(self).reader && state is EOF),
            r.writer == (old(self).writer && !(state is DESTROYING)),
            final(self).reader == (old(self).reader && !r.reader),
            final(self).writer == (old(self).writer && !r.writer),
    {
        let mut wake = Wake { reader: false, writer: false };
        match state {
            UTP_STATE::WRITABLE | UTP_STATE::CONNECT => {
                if state == UTP_STATE::CONNECT {
                    self.connected = true;
                }
                wake.writer = self.writer;
                self.writer = false;
            },
            UTP_STATE::EOF => {
                self.eof = true;
                wake.reader = self.reader;
                wake.writer = self.writer;
                self.reader = false;
                self.writer = false;
            },
            _ => {},
        }
        wake
    }

    /// Takes note of an error.
    pub fn on_error(&mut self, error: UTP_ERROR) -> (r: Wake)
        ensures
            final(self).error_code == Some(error),
            final(self).eof == old(self).eof,
            final(self).connected == old(self).connected,
            final(self).read_buf == old(self).read_buf,
            r == (Wake { reader: old(self).reader, writer: old(self).writer }),
            !final(self).reader,
            !final(self).writer,
    {
        self.error_code = Some(error);
        let wake = Wake { reader: self.reader, writer: self.writer };
        self.reader = false;
        self.writer = false;
        wake
    }

    /// Takes in data that came.
    pub fn on_read(&mut self, data: &[u8]) -> (r: Wake)
        ensures
            final(self).read_buf@ == old(self).read_buf@ + data@,
            final(self).eof == old(self).eof,
            final(self).connected == old(self).connected,
            final(self).error_code == old(self).error_code,
            r == (Wake { reader: old(self).reader, writer: false }),
            !final(self).reader,
            final(self).writer == old(self).writer,
    {
        append_slice(&mut self.read_buf, data);
        let wake = Wake { reader: self.reader, writer: false };
        self.reader = false;
        wake
    }

    /// Takes note that the socket came from a listener, connected.
    pub fn accepted(&mut self)
        ensures
            final(self).connected,
            final(self).eof == old(self).eof,
            final(self).read_buf == old(self).read_buf,
            final(self).reader == old(self).reader,
            final(self).writer == old(self).writer,
            final(self).error_code == old(self).error_code,
    {
        self.connected = true;
    }

    /// What comes of waiting for the connection.
    pub fn poll_connect(&mut self) -> (r: ConnectPoll)
        ensures
            r == (match old(self).error_code {
                Some(error) => ConnectPoll::Failed(error),
                None => if old(self).connected {
                    ConnectPoll::Connected
                } else {
                    ConnectPoll::Pending
                },
            }),
            final(self).writer == (old(self).writer || r is Pending),
            final(self).eof == old(self).eof,
            final(self).connected == old(self).connected,
            final(self).read_buf == old(self).read_buf,
            final(self).reader == old(self).reader,
            final(self).error_code == old(self).error_code,
    {
        if let Some(error) = self.error_code {
            return ConnectPoll::Failed(error);
        }
        if self.connected {
            return ConnectPoll::Connected;
        }
        self.writer = true;
        ConnectPoll::Pending
    }

    /// What comes of reading so many bytes at most: an error comes before the data that is
    /// left, and the end after it.
    pub fn poll_read(&mut self, room: usize) -> (r: ReadPoll)
        ensures
            final(self).eof == old(self).eof,
            final(self).connected == old(self).connected,
            final(self).writer == old(self).writer,
            final(self).error_code == old(self).error_code,
            final(self).reader == (old(self).reader || r is Pending),
            match (old(self).error_code, r) {
                (Some(error), ReadPoll::Failed(e)) => e == error && final(self).read_buf
                    == old(self).read_buf,
                (None, ReadPoll::Data(data)) => {
                    let n = if old(self).read_buf@.len() < room {
                        old(self).read_buf@.len() as int
                    } else {
                        room as int
                    };
                    &&& old(self).read_buf@.len() > 0 || old(self).eof
                    &&& data@ == old(self).read_buf@.take(n)
                    &&& final(self).read_buf@ == old(self).read_buf@.skip(n)
                },
                (None, ReadPoll::Pending) => {
                    &&& old(self).read_buf@.len() == 0
                    &&& !old(self).eof
                    &&& final(self).read_buf == old(self).read_buf
                },
                _ => false,
            },
    {
        if let Some(error) = self.error_code {
            return ReadPoll::Failed(error);
        }
        if self.read_buf.len() > 0 {
            let n: usize = if self.read_buf.len() < room {
                self.read_buf.len()
            } else {
                room
            };
            let data = copy_slice(sub_slice(self.read_buf.as_slice(), 0, n));
            let rest = copy_slice(sub_slice(self.read_buf.as_slice(), n, self.read_buf.len()));
            assert(data@ =~= self.read_buf@.take(n as int));
            assert(rest@ =~= self.read_buf@.skip(n as int));
            self.read_buf = rest;
            return ReadPoll::Data(data);
        }
        if self.eof {
            let data: Vec<u8> = Vec::new();
            assert(data@ =~= self.read_buf@.take(0));
            assert(self.read_buf@ =~= self.read_buf@.skip(0));
            return ReadPoll::Data(data);
        }
        self.reader = true;
        ReadPoll::Pending
    }

    /// Whether so many bytes can be written.
    pub fn check_write(&self, len: usize) -> (r: WriteCheck)
        ensures
            r == (if len == 0 {
                WriteCheck::Nothing
            } else {
                match self.error_code {
                    Some(error) => WriteCheck::Failed(error),
                    None => if self.eof {
                        WriteCheck::Nothing
                    } else {
                        WriteCheck::Write
                    },
                }
            }),
    {
        if len == 0 {
            return WriteCheck::Nothing;
        }
        if let Some(error) = self.error_code {
            return WriteCheck::Failed(error);
        }
        if self.eof {
            return WriteCheck::Nothing;
        }
        WriteCheck::Write
    }

    /// What comes of writing, where the socket took so many bytes; it takes none while it
    /// cannot be written to.
    pub fn written(&mut self, size: isize) -> (r: WritePoll)
        ensures
            r == (if size < 0 {
                WritePoll::Refused
            } else if size == 0 {
                WritePoll::Pending
            } else {
                WritePoll::Written(size as usize)
            }),
            final(self).writer == (old(self).writer || r is Pending),
            final(self).eof == old(self).eof,
            final(self).connected == old(self).connected,
            final(self).read_buf == old(self).read_buf,
            final(self).reader == old(self).reader,
            final(self).error_code == old(self).error_code,
    {
        if size < 0 {
            return WritePoll::Refused;
        }
        if size != 0 {
            return WritePoll::Written(size as usize);
        }
        self.writer = true;
        WritePoll::Pending
    }
}

/// The changes of a state have the numbers from one on, and the errors those from zero on,
/// in the order in which they are named.
pub proof fn law_codes(code: i32)
    ensures
        UTP_STATE::spec_from_code(code) is Some <==> 1 <= code <= 4,
        UTP_STATE::spec_from_code(code) == Some(UTP_STATE::CONNECT) <==> code == 1,
        UTP_STATE::spec_from_code(code) == Some(UTP_STATE::WRITABLE) <==> code == 2,
        UTP_STATE::spec_from_code(code) == Some(UTP_STATE::EOF) <==> code == 3,
        UTP_STATE::spec_from_code(code) == Some(UTP_STATE::DESTROYING) <==> code == 4,
        UTP_ERROR::spec_from_code(code) is Some <==> 0 <= code <= 2,
        UTP_ERROR::spec_from_code(code) == Some(UTP_ERROR::ECONNREFUSED) <==> code == 0,
        UTP_ERROR::spec_from_code(code) == Some(UTP_ERROR::ECONNRESET) <==> code == 1,
        UTP_ERROR::spec_from_code(code) == Some(UTP_ERROR::ETIMEDOUT) <==> code == 2,
{
}

/// Each callback has a number of its own.
pub proof fn law_callback_codes(a: UTP_CALLBACK, b: UTP_CALLBACK)
    ensures
        a.spec_code() == b.spec_code() <==> a == b,
        0 <= a.spec_code() <= 22,
        a.spec_code() == 22 <==> a is ARRAY_SIZE,
{
}

} // verus!
