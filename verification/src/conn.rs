//! One registered connection as the registry holds it: the queue of
//! undrained inbound events, whether its reader has terminated, and the
//! ghost record of every payload handed in and every payload delivered.

use vstd::prelude::*;
use crate::events::{EventModel, InboundEvent};

verus! {

/// The registry's entry for one connection.
pub struct ConnEntry {
    /// Inbound events queued by the reader and not yet drained by scan;
    /// index 0 is drained first.
    pub queue: Vec<InboundEvent>,
    /// True once the reader has terminated: the sending side of this
    /// connection's channel is dropped, and an empty poll of the entry
    /// reports a disconnect.
    pub closed: bool,
    /// True once the handshake succeeded and the name was written.
    pub handshaken: bool,
    /// Every data payload the reader has handed in, oldest first.
    pub sent: Ghost<Seq<Seq<u8>>>,
    /// The payloads scan has already delivered, oldest first.
    pub delivered: Ghost<Seq<Seq<u8>>>,
}

/// Mathematical form of one registered connection.
#[verifier::ext_equal]
pub ghost struct ConnModel {
    pub queue: Seq<EventModel>,
    pub closed: bool,
    pub handshaken: bool,
    pub sent: Seq<Seq<u8>>,
    pub delivered: Seq<Seq<u8>>,
}

impl View for ConnEntry {
    type V = ConnModel;

    open spec fn view(&self) -> ConnModel {
        ConnModel {
            queue: self.queue@.map_values(|e: InboundEvent| e@),
            closed: self.closed,
            handshaken: self.handshaken,
            sent: self.sent@,
            delivered: self.delivered@,
        }
    }
}

/// A connection that never completed its handshake and whose reader is
/// still running: what accept registers.
pub open spec fn fresh_conn() -> ConnModel {
    ConnModel {
        queue: Seq::empty(),
        closed: false,
        handshaken: false,
        sent: Seq::empty(),
        delivered: Seq::empty(),
    }
}

/// The data payloads among a queue of inbound events, in queue order.
pub open spec fn payloads(q: Seq<EventModel>) -> Seq<Seq<u8>>
    decreases q.len(),
{
    if q.len() == 0 {
        Seq::empty()
    } else {
        let rest = payloads(q.drop_first());
        match q[0] {
            EventModel::Bytes(b) => seq![b] + rest,
            EventModel::IoError(_) => rest,
        }
    }
}

/// The entry keeps the per-connection byte stream intact: everything the
/// reader handed in is either already delivered or still queued, in order.
pub open spec fn stream_intact(c: ConnModel) -> bool {
    c.sent == c.delivered + payloads(c.queue)
}

/// Appending an event to a queue appends its payload, if it carries one.
pub proof fn lemma_payloads_push(q: Seq<EventModel>, e: EventModel)
    ensures
        payloads(q.push(e)) == match e {
            EventModel::Bytes(b) => payloads(q).push(b),
            EventModel::IoError(_) => payloads(q),
        },
    decreases q.len(),
{
    if q.len() == 0 {
        assert(q.push(e).drop_first() =~= Seq::<EventModel>::empty());
        assert(payloads(Seq::<EventModel>::empty()) =~= Seq::<Seq<u8>>::empty());
        assert(q =~= Seq::<EventModel>::empty());
        assert(q.push(e)[0] == e);
        match e {
            EventModel::Bytes(b) => {
                assert(payloads(q.push(e)) =~= payloads(q).push(b));
            },
            EventModel::IoError(_) => {
                assert(payloads(q.push(e)) =~= payloads(q));
            },
        }
    } else {
        lemma_payloads_push(q.drop_first(), e);
        assert(q.push(e).drop_first() =~= q.drop_first().push(e));
        assert(q.push(e)[0] == q[0]);
        match (q[0], e) {
            (EventModel::Bytes(_), EventModel::Bytes(b)) => {
                assert(payloads(q.push(e)) =~= payloads(q).push(b));
            },
            (EventModel::Bytes(_), EventModel::IoError(_)) => {
                assert(payloads(q.push(e)) =~= payloads(q));
            },
            (EventModel::IoError(_), EventModel::Bytes(b)) => {
                assert(payloads(q.push(e)) =~= payloads(q).push(b));
            },
            (EventModel::IoError(_), EventModel::IoError(_)) => {
                assert(payloads(q.push(e)) =~= payloads(q));
            },
        }
    }
}

} // verus!
