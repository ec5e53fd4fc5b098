//! The reader capability at the transport boundary, and the sideband
//! demultiplexing decisions.
//!
//! A packet-line stream multiplexes payload, progress text and remote
//! errors over one connection, one band per line.  What to do with each
//! line is a pure decision, taken here; performing the reads is I/O that an
//! implementor of [`ExtendedBufRead`] supplies.

use vstd::prelude::*;

verus! {

/// The protocol version a reader is reset for.
#[derive(Clone, Copy, PartialEq, Eq, Structural, Debug)]
pub enum Protocol {
    V1,
    V2,
}

/// The kind of message a reader stopped at.
#[derive(Clone, Copy, PartialEq, Eq, Structural, Debug)]
pub enum MessageKind {
    Flush,
    Delimiter,
    ResponseEnd,
}

/// One packet line: a payload or one of the three delimiting markers.
#[derive(Clone, Debug)]
pub enum PacketLine {
    Data(Vec<u8>),
    Flush,
    Delimiter,
    ResponseEnd,
}

/// One sideband payload, classified by its leading band byte.
#[derive(Clone, Debug)]
pub enum Band {
    /// Band one: bytes of the stream itself.
    Data(Vec<u8>),
    /// Band two: progress text for a handler.
    Progress(Vec<u8>),
    /// Band three: an error the remote reports.
    Error(Vec<u8>),
}

/// What a reader should do after one line is in hand.
#[derive(Clone, Debug)]
pub enum SidebandStep {
    /// Hand these bytes to the consumer.
    Deliver(Vec<u8>),
    /// Hand this text to the progress handler, then read on.
    Progress(Vec<u8>),
    /// Hand this text to the progress handler as an error, then read on.
    RemoteError(Vec<u8>),
    /// The stream ended at a delimiter or ran out.
    Stop,
    /// The line is no valid sideband frame: fail the read.
    Malformed,
}

/// Classifies one data-line payload by its band byte.
pub fn decode_band(payload: &[u8]) -> (r: Option<Band>)
    ensures
        match r {
            Some(Band::Data(d)) => payload@.len() >= 1 && payload@[0] == 1 && d@
                == payload@.skip(1),
            Some(Band::Progress(d)) => payload@.len() >= 1 && payload@[0] == 2 && d@
                == payload@.skip(1),
            Some(Band::Error(d)) => payload@.len() >= 1 && payload@[0] == 3 && d@
                == payload@.skip(1),
            None => payload@.len() == 0 || payload@[0] == 0 || payload@[0] > 3,
        },
{
    if payload.len() == 0 {
        return None;
    }
    let b = payload[0];
    if b == 0 || b > 3 {
        return None;
    }
    let mut rest: Vec<u8> = Vec::new();
    let mut i: usize = 1;
    while i < payload.len()
        invariant
            1 <= i <= payload@.len(),
            rest@ =~= payload@.subrange(1, i as int),
        decreases payload@.len() - i,
    {
        rest.push(payload[i]);
        i = i + 1;
    }
    proof {
        assert(rest@ =~= payload@.skip(1));
    }
    if b == 1 {
        Some(Band::Data(rest))
    } else if b == 2 {
        Some(Band::Progress(rest))
    } else {
        Some(Band::Error(rest))
    }
}

/// Decides what one line of the stream means.  With a progress handler,
/// the line is a sideband frame: band one is payload, bands two and three
/// are progress and remote-error text, anything else is malformed.  With
/// no handler the whole payload is the stream, and a non-data line in a
/// data-only context is malformed.  No line at all stops the read.
pub fn sideband_step(line: Option<&PacketLine>, with_handler: bool) -> (r: SidebandStep)
    ensures
        match line {
            None => r is Stop,
            Some(l) => match l {
                PacketLine::Data(p) => {
                    if with_handler {
                        match r {
                            SidebandStep::Deliver(d) => p@.len() >= 1 && p@[0] == 1 && d@
                                == p@.skip(1),
                            SidebandStep::Progress(d) => p@.len() >= 1 && p@[0] == 2 && d@
                                == p@.skip(1),
                            SidebandStep::RemoteError(d) => p@.len() >= 1 && p@[0] == 3 && d@
                                == p@.skip(1),
                            SidebandStep::Malformed => p@.len() == 0 || p@[0] == 0 || p@[0]
                                > 3,
                            _ => false,
                        }
                    } else {
                        r matches SidebandStep::Deliver(d) && d@ == p@
                    }
                },
                _ => r is Malformed,
            },
        },
{
    match line {
        None => SidebandStep::Stop,
        Some(l) => match l {
            PacketLine::Data(p) => {
                if with_handler {
                    match decode_band(p.as_slice()) {
                        Some(Band::Data(d)) => SidebandStep::Deliver(d),
                        Some(Band::Progress(d)) => SidebandStep::Progress(d),
                        Some(Band::Error(d)) => SidebandStep::RemoteError(d),
                        None => SidebandStep::Malformed,
                    }
                } else {
                    SidebandStep::Deliver(crate::pack::copy_bytes(p.as_slice()))
                }
            },
            _ => SidebandStep::Malformed,
        },
    }
}

/// The delimiters a reader accepts after a reset for the given protocol
/// version: a flush alone, or a delimiter and a flush.
pub fn reset_delimiters(version: Protocol) -> (r: Vec<PacketLine>)
    ensures
        match version {
            Protocol::V1 => r@.len() == 1 && r@[0] is Flush,
            Protocol::V2 => r@.len() == 2 && r@[0] is Delimiter && r@[1] is Flush,
        },
{
    let mut out: Vec<PacketLine> = Vec::new();
    match version {
        Protocol::V1 => {
            out.push(PacketLine::Flush);
        },
        Protocol::V2 => {
            out.push(PacketLine::Delimiter);
            out.push(PacketLine::Flush);
        },
    }
    out
}

/// The kind of message a delimiting line stands for.  A data line delimits
/// nothing, so it is left out.
pub fn message_kind_of(line: &PacketLine) -> (r: MessageKind)
    requires
        !(line matches PacketLine::Data(_)),
    ensures
        match line {
            PacketLine::Flush => r is Flush,
            PacketLine::Delimiter => r is Delimiter,
            PacketLine::ResponseEnd => r is ResponseEnd,
            PacketLine::Data(_) => false,
        },
{
    match line {
        PacketLine::Flush => MessageKind::Flush,
        PacketLine::Delimiter => MessageKind::Delimiter,
        PacketLine::ResponseEnd => MessageKind::ResponseEnd,
        PacketLine::Data(_) => MessageKind::Flush,
    }
}

/// Why a peeked line could not be handed out.
#[derive(Clone, Copy, PartialEq, Eq, Structural, Debug)]
pub enum PeekError {
    /// The underlying source failed.
    Io,
    /// The line in hand is no well-formed packet line.
    Decode,
}

/// A buffered reader over a packet-line stream: the shape through which
/// the store and consumers take streamed bytes once they are in hand.
/// Implementors demultiplex sidebands (see [`sideband_step`]), stop at the
/// configured delimiters, and report where they stopped.
pub trait ExtendedBufRead {
    /// Turns forwarding of progress lines to a handler on or off.
    fn set_progress_handler(&mut self, enabled: bool);

    /// Peeks the next data line without consuming it.
    fn peek_data_line(&mut self) -> Option<Result<Vec<u8>, PeekError>>;

    /// Allows reading past a previous stop, with the delimiters of the
    /// given protocol version.
    fn reset(&mut self, version: Protocol);

    /// The kind of message at which the reader stopped, if it has.
    fn stopped_at(&self) -> Option<MessageKind>;
}

} // verus!
