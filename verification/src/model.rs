//! The mathematical model of the whole registry, its invariant, and the
//! meaning of one scan: which events come out and what state is left.

use vstd::prelude::*;
use crate::conn::{ConnModel, payloads, stream_intact};
use crate::events::{EventModel, ScanEvent, ScanResult};

verus! {

/// Mathematical form of the whole registry.
#[verifier::ext_equal]
pub ghost struct LobbyModel {
    /// The highest id minted so far; ids count from 1.
    pub next: usize,
    /// The FIFO pool of released ids, oldest release first.
    pub free: Seq<usize>,
    /// The registered connections.
    pub conns: Map<usize, ConnModel>,
    /// The handshake name of every id that ever completed a handshake;
    /// entries are never removed, not even when an id is recycled.
    pub names: Map<usize, Seq<char>>,
    /// Undrained handshake completions, oldest first.
    pub established: Seq<usize>,
}

impl LobbyModel {
    /// A connection is live while it is registered and its reader has not
    /// terminated; its id must not be handed out again before then.
    pub open spec fn live(&self, id: usize) -> bool {
        self.conns.contains_key(id) && !self.conns[id].closed
    }

    /// The registry invariant, preserved by every operation.
    pub open spec fn inv(&self) -> bool {
        &&& self.conns.dom().finite()
        &&& self.free.no_duplicates()
        &&& forall|j: int|
            0 <= j < self.free.len() ==> 1 <= #[trigger] self.free[j] <= self.next
        &&& forall|j: int| 0 <= j < self.free.len() ==> !self.live(#[trigger] self.free[j])
        &&& forall|k: usize| #[trigger] self.conns.contains_key(k) ==> 1 <= k <= self.next
        &&& forall|k: usize|
            self.conns.contains_key(k) && #[trigger] self.conns[k].closed ==> self.free.contains(
                k,
            )
        &&& forall|k: usize|
            self.conns.contains_key(k) && !#[trigger] self.conns[k].handshaken ==> {
                &&& self.conns[k].queue.len() == 0
                &&& self.conns[k].sent.len() == 0
                &&& self.conns[k].delivered.len() == 0
            }
        &&& forall|k: usize|
            self.conns.contains_key(k) && #[trigger] self.conns[k].handshaken
                ==> self.names.contains_key(k)
        &&& forall|k: usize| #[trigger] self.conns.contains_key(k) ==> stream_intact(self.conns[k])
        &&& forall|j: int|
            0 <= j < self.established.len() ==> self.conns.contains_key(
                #[trigger] self.established[j],
            ) && self.names.contains_key(self.established[j])
    }
}

/// A sequence of ids in strictly ascending order.
pub open spec fn strictly_ascending(s: Seq<usize>) -> bool {
    forall|a: int, b: int| 0 <= a < b < s.len() ==> s[a] < s[b]
}

/// A legal visiting order for one scan: each registered id exactly once.
pub open spec fn valid_visit(dom: Set<usize>, ks: Seq<usize>) -> bool {
    &&& ks.no_duplicates()
    &&& forall|k: usize| ks.contains(k) <==> dom.contains(k)
}

/// The event one poll of an entry reports: the oldest queued event if any;
/// a disconnect if nothing is queued and the reader has terminated; else
/// nothing.
pub open spec fn entry_event(c: ConnModel) -> Option<ScanEvent> {
    if c.queue.len() > 0 {
        match c.queue[0] {
            EventModel::Bytes(b) => Some(ScanEvent::Data(b)),
            EventModel::IoError(e) => Some(ScanEvent::IoError(e)),
        }
    } else if c.closed {
        Some(ScanEvent::Disconnected)
    } else {
        None
    }
}

/// Whether the entry stays registered after the poll: everything but an
/// entry whose disconnect was just reported.
pub open spec fn entry_kept(c: ConnModel) -> bool {
    c.queue.len() > 0 || !c.closed
}

/// The entry as one poll leaves it, when it stays registered.
pub open spec fn entry_after(c: ConnModel) -> ConnModel {
    if c.queue.len() > 0 {
        ConnModel {
            queue: c.queue.drop_first(),
            delivered: match c.queue[0] {
                EventModel::Bytes(b) => c.delivered.push(b),
                EventModel::IoError(_) => c.delivered,
            },
            ..c
        }
    } else {
        c
    }
}

/// One id's contribution to a scan's event list.
pub open spec fn poll_one_events(m: Map<usize, ConnModel>, k: usize) -> Seq<(usize, ScanEvent)> {
    if m.contains_key(k) {
        match entry_event(m[k]) {
            Some(ev) => seq![(k, ev)],
            None => Seq::empty(),
        }
    } else {
        Seq::empty()
    }
}

/// The registry after polling one id.
pub open spec fn poll_one(m: Map<usize, ConnModel>, k: usize) -> Map<usize, ConnModel> {
    if m.contains_key(k) {
        if entry_kept(m[k]) {
            m.insert(k, entry_after(m[k]))
        } else {
            m.remove(k)
        }
    } else {
        m
    }
}

/// The events a scan's polling phase reports, visiting ids in order `ks`.
/// Each id is visited once, so each poll reads the entry as it stood when
/// the scan began.
pub open spec fn poll_events(m: Map<usize, ConnModel>, ks: Seq<usize>) -> Seq<(usize, ScanEvent)>
    decreases ks.len(),
{
    if ks.len() == 0 {
        Seq::empty()
    } else {
        poll_one_events(m, ks[0]) + poll_events(m, ks.drop_first())
    }
}

/// The registry after a scan's polling phase, visiting ids in order `ks`.
pub open spec fn poll_map(m: Map<usize, ConnModel>, ks: Seq<usize>) -> Map<usize, ConnModel>
    decreases ks.len(),
{
    if ks.len() == 0 {
        m
    } else {
        poll_map(poll_one(m, ks[0]), ks.drop_first())
    }
}

/// The Connected events a scan's draining phase reports, oldest first.
pub open spec fn connected_events(es: Seq<usize>) -> Seq<(usize, ScanEvent)> {
    es.map_values(|i: usize| (i, ScanEvent::Connected))
}

/// Everything one scan reports, in order: the drained handshake
/// completions, then one poll of each registered id in visiting order.
pub open spec fn scan_output(s: LobbyModel, ks: Seq<usize>) -> Seq<(usize, ScanEvent)> {
    connected_events(s.established) + poll_events(s.conns, ks)
}

/// The registry one scan leaves behind: completions drained, every entry
/// polled once, entries whose disconnect was reported removed.
pub open spec fn scan_state(s: LobbyModel, ks: Seq<usize>) -> LobbyModel {
    LobbyModel { established: Seq::empty(), conns: poll_map(s.conns, ks), ..s }
}

/// The mathematical form of an event list as scan returns it.
pub open spec fn events_view(s: Seq<(usize, ScanResult)>) -> Seq<(usize, ScanEvent)> {
    s.map_values(|p: (usize, ScanResult)| (p.0, p.1@))
}

/// A strictly ascending id sequence repeats nothing.
pub proof fn lemma_ascending_no_duplicates(s: Seq<usize>)
    requires
        strictly_ascending(s),
    ensures
        s.no_duplicates(),
{
}

/// Polling one id preserves the registry invariant, once the completions
/// are drained.
pub proof fn lemma_poll_one_inv(s: LobbyModel, k: usize)
    requires
        s.inv(),
        s.established.len() == 0,
    ensures
        (LobbyModel { conns: poll_one(s.conns, k), ..s }).inv(),
{
    let s2 = (LobbyModel { conns: poll_one(s.conns, k), ..s });
    if s.conns.contains_key(k) {
        let c = s.conns[k];
        if entry_kept(c) {
            let c2 = entry_after(c);
            if c.queue.len() > 0 {
                match c.queue[0] {
                    EventModel::Bytes(b) => {
                        assert(c2.delivered + payloads(c2.queue) =~= c.delivered + payloads(
                            c.queue,
                        ));
                    },
                    EventModel::IoError(_) => {
                        assert(c2.delivered + payloads(c2.queue) =~= c.delivered + payloads(
                            c.queue,
                        ));
                    },
                }
            }
            assert(stream_intact(c2));
            assert forall|kk: usize|
                s2.conns.contains_key(kk) && #[trigger] s2.conns[kk].closed implies s2.free
                .contains(kk) by {
                if kk != k {
                    assert(s2.conns[kk] == s.conns[kk]);
                }
            }
            assert forall|j: int| 0 <= j < s2.free.len() implies !s2.live(
                #[trigger] s2.free[j],
            ) by {
                assert(!s.live(s.free[j]));
            }
            assert(s2.inv());
        } else {
            assert forall|j: int| 0 <= j < s2.free.len() implies !s2.live(
                #[trigger] s2.free[j],
            ) by {
                assert(!s.live(s.free[j]));
            }
            assert(s2.inv());
        }
    } else {
        assert(s2 =~= s);
    }
}

} // verus!
