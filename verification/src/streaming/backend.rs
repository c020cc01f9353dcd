//! A backend that answers in paced chunks.

use vstd::prelude::*;
use vstd::utf8::encode_utf8;

use crate::number::{digit, hex_digit};
use crate::streaming::header::{find_header_end, head_end};
use crate::text::bytes_of_text;

verus! {

/// A request may hold this many bytes before its head ends.
pub const MAX_REQUEST: usize = 65536;

/// The head of the response.
pub open spec fn response_head() -> Seq<char> {
    "HTTP/1.1 200 OK\r\nTransfer-Encoding: chunked\r\nContent-Type: text/event-stream\r\nCache-Control: no-cache\r\nConnection: close\r\n\r\n"@
}

/// A number in hexadecimal, without leading zeros.
pub open spec fn hex(n: nat) -> Seq<char>
    decreases n,
{
    if n < 16 {
        seq![digit(n as u8)]
    } else {
        hex(n / 16).push(digit((n % 16) as u8))
    }
}

/// A chunk of `size` bytes, as it is framed.
pub open spec fn frame(size: nat) -> Seq<u8> {
    encode_utf8(hex(size) + "\r\n"@) + Seq::new(size, |i: int| 120u8) + encode_utf8("\r\n"@)
}

/// The chunk that ends a body.
pub open spec fn last_frame() -> Seq<u8> {
    encode_utf8("0\r\n\r\n"@)
}

fn push_hex(out: &mut String, n: usize)
    ensures
        final(out)@ == old(out)@ + hex(n as nat),
    decreases n,
{
    if n >= 16 {
        push_hex(out, n / 16);
    }
    out.push(hex_digit((n % 16) as u8));
    assert(out@ =~= old(out)@ + hex(n as nat));
}

/// A chunk of `size` bytes, as it is framed.
pub fn chunk_frame(size: usize) -> (r: Vec<u8>)
    ensures
        r@ == frame(size as nat),
{
    let mut line = String::new();
    push_hex(&mut line, size);
    line.push('\r');
    line.push('\n');
    proof {
        reveal_strlit("\r\n");
    }
    assert(line@ =~= hex(size as nat) + "\r\n"@);
    let mut out = bytes_of_text(line.as_str());
    let ghost start = out@;
    let mut i: usize = 0;
    while i < size
        invariant
            i <= size,
            out@ == start + Seq::new(i as nat, |k: int| 120u8),
        decreases size - i,
    {
        out.push(120);
        i = i + 1;
        assert(out@ =~= start + Seq::new(i as nat, |k: int| 120u8));
    }
    let mut end = bytes_of_text("\r\n");
    out.append(&mut end);
    out
}

/// What the connection did.
pub enum ServeEvent {
    /// Bytes were read; none where the peer has closed.
    Read(Vec<u8>),
    /// What was asked for is done.
    Done,
    /// What was asked for failed.
    Failed,
}

/// What the connection is asked to do.
pub enum ServeAction {
    /// Read from the peer.
    Read,
    /// Write these bytes and flush.
    Write(Vec<u8>),
    /// Wait for the pause between chunks.
    Sleep,
    /// Drop the connection.
    Stop,
}

/// What the connection is asked to do, as mathematical data.
pub enum Step {
    /// Read from the peer.
    Read,
    /// Write these bytes and flush.
    Write(Seq<u8>),
    /// Wait for the pause between chunks.
    Sleep,
    /// Drop the connection.
    Stop,
}

impl View for ServeAction {
    type V = Step;

    open spec fn view(&self) -> Step {
        match self {
            ServeAction::Read => Step::Read,
            ServeAction::Write(bytes) => Step::Write(bytes@),
            ServeAction::Sleep => Step::Sleep,
            ServeAction::Stop => Step::Stop,
        }
    }
}

/// How far a connection has come.
#[derive(Clone, Copy, PartialEq, Eq, Structural)]
pub enum Stage {
    /// The request is being read.
    Request,
    /// The response is being sent: this many chunks are left, and the pause before
    /// the next one is over or not.
    Reply { left: u32, paused: bool },
    /// The end of the body was sent.
    Ending,
    /// The connection is dropped.
    Over,
}

/// A connection that is answered in paced chunks.
pub struct PacedConnection {
    request: Vec<u8>,
    stage: Stage,
    chunks: u32,
    chunk_size: usize,
    paced: bool,
}

/// A connection as mathematical data.
pub ghost struct Connection {
    /// What was read of the request.
    pub request: Seq<u8>,
    /// How far it has come.
    pub stage: Stage,
    /// The number of chunks in a response.
    pub chunks: u32,
    /// The size of each chunk.
    pub chunk_size: usize,
    /// Whether there is a pause before each chunk.
    pub paced: bool,
}

impl Connection {
    /// The connection at another stage.
    pub open spec fn at(self, stage: Stage) -> Self {
        Connection { stage, ..self }
    }

    /// The next state and the next step once `data` was read.
    pub open spec fn after_read(self, data: Seq<u8>) -> (Self, Step) {
        let more = Connection { request: self.request + data, ..self };
        if data.len() == 0 {
            (self.at(Stage::Over), Step::Stop)
        } else if head_end(more.request) is Some {
            (
                more.at(Stage::Reply { left: self.chunks, paused: false }),
                Step::Write(encode_utf8(response_head())),
            )
        } else if more.request.len() > MAX_REQUEST {
            (more.at(Stage::Over), Step::Stop)
        } else {
            (more, Step::Read)
        }
    }

    /// The next state and the next step once what was asked for is done.
    pub open spec fn after_done(self) -> (Self, Step) {
        match self.stage {
            Stage::Request => (self, Step::Read),
            Stage::Reply { left, paused } => if left == 0 {
                (self.at(Stage::Ending), Step::Write(last_frame()))
            } else if self.paced && !paused {
                (self.at(Stage::Reply { left, paused: true }), Step::Sleep)
            } else {
                (
                    self.at(Stage::Reply { left: (left - 1) as u32, paused: false }),
                    Step::Write(frame(self.chunk_size as nat)),
                )
            },
            Stage::Ending | Stage::Over => (self.at(Stage::Over), Step::Stop),
        }
    }

    /// The next state and the next step.
    pub open spec fn next(self, event: ServeEvent) -> (Self, Step) {
        match (event, self.stage) {
            (ServeEvent::Failed, _) => (self.at(Stage::Over), Step::Stop),
            (ServeEvent::Read(data), Stage::Request) => self.after_read(data@),
            _ => self.after_done(),
        }
    }
}

impl View for PacedConnection {
    type V = Connection;

    closed spec fn view(&self) -> Connection {
        Connection {
            request: self.request@,
            stage: self.stage,
            chunks: self.chunks,
            chunk_size: self.chunk_size,
            paced: self.paced,
        }
    }
}

impl PacedConnection {
    /// A connection of which nothing was read. The first step is to read.
    pub fn new(chunks: u32, chunk_delay_ms: u64, chunk_size: usize) -> (r: Self)
        ensures
            r@ == (Connection {
                request: Seq::empty(),
                stage: Stage::Request,
                chunks,
                chunk_size,
                paced: chunk_delay_ms > 0,
            }),
    {
        PacedConnection {
            request: Vec::new(),
            stage: Stage::Request,
            chunks,
            chunk_size,
            paced: chunk_delay_ms > 0,
        }
    }

    /// Take in what the connection did, and say what it does next.
    pub fn step(&mut self, event: ServeEvent) -> (r: ServeAction)
        ensures
            (final(self)@, r@) == old(self)@.next(event),
    {
        match event {
            ServeEvent::Failed => {
                self.stage = Stage::Over;
                ServeAction::Stop
            },
            ServeEvent::Read(data) => match self.stage {
                Stage::Request => self.take_request(data),
                _ => self.advance(),
            },
            ServeEvent::Done => self.advance(),
        }
    }

    fn take_request(&mut self, data: Vec<u8>) -> (r: ServeAction)
        requires
            old(self)@.stage == Stage::Request,
        ensures
            (final(self)@, r@) == old(self)@.after_read(data@),
    {
        if data.len() == 0 {
            self.stage = Stage::Over;
            return ServeAction::Stop;
        }
        let ghost before = self.request@;
        self.request.extend_from_slice(data.as_slice());
        assert(self.request@ =~= before + data@);
        if find_header_end(self.request.as_slice()).is_some() {
            self.stage = Stage::Reply { left: self.chunks, paused: false };
            return ServeAction::Write(
                bytes_of_text(
                    "HTTP/1.1 200 OK\r\nTransfer-Encoding: chunked\r\nContent-Type: text/event-stream\r\nCache-Control: no-cache\r\nConnection: close\r\n\r\n",
                ),
            );
        }
        if self.request.len() > MAX_REQUEST {
            self.stage = Stage::Over;
            return ServeAction::Stop;
        }
        ServeAction::Read
    }

    fn advance(&mut self) -> (r: ServeAction)
        ensures
            (final(self)@, r@) == old(self)@.after_done(),
    {
        match self.stage {
            Stage::Request => ServeAction::Read,
            Stage::Reply { left, paused } => {
                if left == 0 {
                    self.stage = Stage::Ending;
                    ServeAction::Write(bytes_of_text("0\r\n\r\n"))
                } else if self.paced && !paused {
                    self.stage = Stage::Reply { left, paused: true };
                    ServeAction::Sleep
                } else {
                    self.stage = Stage::Reply { left: left - 1, paused: false };
                    ServeAction::Write(chunk_frame(self.chunk_size))
                }
            },
            Stage::Ending => {
                self.stage = Stage::Over;
                ServeAction::Stop
            },
            Stage::Over => {
                self.stage = Stage::Over;
                ServeAction::Stop
            },
        }
    }
}

/// What a connection writes while every step succeeds, until it is dropped.
pub open spec fn written(c: Connection, fuel: nat) -> Seq<u8>
    decreases fuel,
{
    if fuel == 0 {
        Seq::empty()
    } else {
        let (after, step) = c.after_done();
        match step {
            Step::Write(bytes) => bytes + written(after, (fuel - 1) as nat),
            Step::Sleep => written(after, (fuel - 1) as nat),
            Step::Read | Step::Stop => Seq::empty(),
        }
    }
}

/// `count` copies of a sequence of bytes.
pub open spec fn repeated(bytes: Seq<u8>, count: nat) -> Seq<u8>
    decreases count,
{
    if count == 0 {
        Seq::empty()
    } else {
        bytes + repeated(bytes, (count - 1) as nat)
    }
}

/// Behind its head a response holds as many chunks as are left, each of the
/// configured size, and then the end of the body; pauses add nothing.
pub proof fn law_body_is_framed(c: Connection, left: u32, paused: bool, fuel: nat)
    requires
        c.stage == (Stage::Reply { left, paused }),
        fuel >= 2 * left + 2,
    ensures
        written(c, fuel) == repeated(frame(c.chunk_size as nat), left as nat) + last_frame(),
    decreases left,
{
    let (after, step) = c.after_done();
    if left == 0 {
        assert(written(after, (fuel - 1) as nat) =~= Seq::<u8>::empty());
        assert(written(c, fuel) =~= last_frame());
        assert(repeated(frame(c.chunk_size as nat), 0) + last_frame() =~= last_frame());
    } else {
        let f = frame(c.chunk_size as nat);
        let sent = if c.paced && !paused {
            after.after_done().0
        } else {
            after
        };
        let rest = if c.paced && !paused {
            (fuel - 2) as nat
        } else {
            (fuel - 1) as nat
        };
        law_body_is_framed(sent, (left - 1) as u32, false, rest);
        reveal_with_fuel(written, 3);
        assert(written(c, fuel) =~= f + written(sent, rest));
        assert(f + (repeated(f, (left - 1) as nat) + last_frame()) =~= repeated(f, left as nat)
            + last_frame());
    }
}

} // verus!
