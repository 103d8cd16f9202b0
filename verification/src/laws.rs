//! The library's stated guarantees, proved once and for all from the
//! registry invariant and the scan semantics.

use vstd::prelude::*;
use vstd::seq_lib::lemma_flatten_concat;
use crate::conn::payloads;
use crate::events::ScanEvent;
use crate::model::{LobbyModel, entry_event, entry_kept, poll_map, poll_one, poll_events,
    scan_output, scan_state, valid_visit};

verus! {

/// Id uniqueness: the registry keys connections by id, so at most one
/// entry exists per id; and the id the allocator hands to the next accept
/// — the oldest pooled id, else a fresh one — never belongs to a live
/// connection. Together, no two simultaneously live connections ever
/// share an id.
pub proof fn lemma_accepted_id_not_live(s: LobbyModel, id: usize)
    requires
        s.inv(),
        (s.free.len() > 0 && id == s.free[0]) || (s.free.len() == 0 && id == s.next + 1),
    ensures
        !s.live(id),
{
    if s.free.len() > 0 {
        assert(!s.live(s.free[0]));
    }
}

/// Recycling safety: an id sitting in the free pool has no live holder,
/// so reuse can never overlap a connection that still holds the id.
pub proof fn lemma_pooled_id_not_live(s: LobbyModel, j: int)
    requires
        s.inv(),
        0 <= j < s.free.len(),
    ensures
        !s.live(s.free[j]),
{
}

/// Recycling readiness: by the time scan can report a connection
/// Disconnected — its entry is closed — the id is already back in the
/// pool, eligible for a later accept.
pub proof fn lemma_closed_id_pooled(s: LobbyModel, id: usize)
    requires
        s.inv(),
        s.conns.contains_key(id),
        s.conns[id].closed,
    ensures
        s.free.contains(id),
{
}

/// Handshake ordering, first half: every undrained Connected event
/// belongs to an id whose name is already readable — the name is written
/// before the completion is queued, and names are never removed.
pub proof fn lemma_connected_has_name(s: LobbyModel, j: int)
    requires
        s.inv(),
        0 <= j < s.established.len(),
    ensures
        s.names.contains_key(s.established[j]),
{
}

/// Handshake ordering, second half: an id that has not completed its
/// handshake has nothing queued, so the only event scan can ever report
/// for it is the final disconnect — never Data or IoError, and its
/// Connected event does not exist yet.
pub proof fn lemma_no_traffic_before_handshake(s: LobbyModel, id: usize)
    requires
        s.inv(),
        s.conns.contains_key(id),
        !s.conns[id].handshaken,
    ensures
        s.conns[id].queue.len() == 0,
        entry_event(s.conns[id]) is Some ==> entry_event(s.conns[id]) == Some(
            ScanEvent::Disconnected,
        ),
{
}

/// Byte-stream integrity: for every registered connection, what scan has
/// delivered, followed by the payloads still queued, is — chunk for chunk
/// and byte for byte — exactly what its reader handed in, in order.
pub proof fn lemma_byte_stream_integrity(s: LobbyModel, id: usize)
    requires
        s.inv(),
        s.conns.contains_key(id),
    ensures
        s.conns[id].sent == s.conns[id].delivered + payloads(s.conns[id].queue),
        s.conns[id].sent.flatten() == s.conns[id].delivered.flatten() + payloads(
            s.conns[id].queue,
        ).flatten(),
{
    lemma_flatten_concat(s.conns[id].delivered, payloads(s.conns[id].queue));
}

/// A polling pass over quiet entries — nothing queued, no reader gone —
/// reports nothing and changes nothing.
pub proof fn lemma_quiescent_poll(m: Map<usize, crate::conn::ConnModel>, ks: Seq<usize>)
    requires
        forall|k: usize|
            #[trigger] m.contains_key(k) ==> m[k].queue.len() == 0 && !m[k].closed,
    ensures
        poll_events(m, ks) == Seq::<(usize, ScanEvent)>::empty(),
        poll_map(m, ks) == m,
    decreases ks.len(),
{
    if ks.len() > 0 {
        let k = ks[0];
        if m.contains_key(k) {
            assert(entry_kept(m[k]));
            assert(poll_one(m, k) =~= m);
        }
        lemma_quiescent_poll(m, ks.drop_first());
        assert(poll_events(m, ks) =~= Seq::<(usize, ScanEvent)>::empty());
    }
}

/// Non-blocking poll: a scan of a registry with no pending events — no
/// undrained completions, nothing queued, no reader gone — reports no
/// event at all and leaves the registry exactly as it was.
pub proof fn lemma_quiescent_scan(s: LobbyModel, ks: Seq<usize>)
    requires
        s.inv(),
        valid_visit(s.conns.dom(), ks),
        s.established.len() == 0,
        forall|k: usize|
            #[trigger] s.conns.contains_key(k) ==> s.conns[k].queue.len() == 0
                && !s.conns[k].closed,
    ensures
        scan_output(s, ks) == Seq::<(usize, ScanEvent)>::empty(),
        scan_state(s, ks) == s,
{
    lemma_quiescent_poll(s.conns, ks);
    assert(scan_output(s, ks) =~= Seq::<(usize, ScanEvent)>::empty());
    assert(scan_state(s, ks) =~= s);
}

} // verus!
