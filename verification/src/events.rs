//! The event vocabulary: what a connection's reader queues up, and what a
//! scan hands to the application's callback.

use vstd::prelude::*;

verus! {

/// An I/O failure as the embedding application reports it: the raw error
/// code of the operation that failed.
#[derive(Clone, Copy, PartialEq, Eq, Structural, Debug)]
pub struct NetError {
    pub code: i32,
}

/// One inbound event queued by a connection's reader between polls: either
/// a chunk of data or a read failure.
#[derive(PartialEq, Eq, Debug)]
pub enum InboundEvent {
    Bytes(Vec<u8>),
    IoError(NetError),
}

/// The result of a client scan, as handed to the scan callback.
#[derive(PartialEq, Eq, Debug)]
pub enum ScanResult {
    /// The client sent data.
    Data(Vec<u8>),
    /// An IO error occurred while scanning.
    IoError(NetError),
    /// A new client has connected.
    Connected,
    /// A client has disconnected.
    Disconnected,
}

/// Mathematical form of one queued inbound event.
pub ghost enum EventModel {
    Bytes(Seq<u8>),
    IoError(i32),
}

/// Mathematical form of one scan callback argument.
pub ghost enum ScanEvent {
    Data(Seq<u8>),
    IoError(i32),
    Connected,
    Disconnected,
}

impl View for InboundEvent {
    type V = EventModel;

    open spec fn view(&self) -> EventModel {
        match self {
            InboundEvent::Bytes(b) => EventModel::Bytes(b@),
            InboundEvent::IoError(e) => EventModel::IoError(e.code),
        }
    }
}

impl View for ScanResult {
    type V = ScanEvent;

    open spec fn view(&self) -> ScanEvent {
        match self {
            ScanResult::Data(b) => ScanEvent::Data(b@),
            ScanResult::IoError(e) => ScanEvent::IoError(e.code),
            ScanResult::Connected => ScanEvent::Connected,
            ScanResult::Disconnected => ScanEvent::Disconnected,
        }
    }
}

} // verus!
