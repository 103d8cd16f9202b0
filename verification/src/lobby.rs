//! The connection registry itself: a sequential state machine that the
//! embedding application drives. The accept loop reports accepted sockets,
//! each connection's reader reports its handshake, bytes, errors and end of
//! stream, and the application polls with `scan` and picks broadcast
//! recipients with the `recipients` family.

use vstd::prelude::*;
use crate::conn::{ConnEntry, ConnModel, fresh_conn, payloads, lemma_payloads_push};
use crate::events::{EventModel, InboundEvent, NetError, ScanEvent, ScanResult};
use crate::ids::IdAlloc;
use crate::model::{LobbyModel, connected_events, entry_after, entry_kept,
    events_view, lemma_ascending_no_duplicates, lemma_poll_one_inv, poll_map, poll_one,
    poll_one_events, poll_events, scan_output, scan_state, strictly_ascending, valid_visit};
use crate::utf8::{decode_utf8, handshake_name};
use crate::vmap::{conn_map_contains, conn_map_insert, conn_map_keys, conn_map_new,
    conn_map_remove, conn_map_view, name_map_get, name_map_insert, name_map_new, name_map_view};

verus! {

/// The mathematical contents of a connection table.
pub open spec fn conns_model(m: Map<usize, ConnEntry>) -> Map<usize, ConnModel> {
    m.map_values(|e: ConnEntry| e@)
}

/// A Lobby: the registry of live connections, their undrained events, the
/// names their handshakes provided, and the id pool.
pub struct Lobby {
    ids: IdAlloc,
    conns: vec_map::VecMap<ConnEntry>,
    names: vec_map::VecMap<String>,
    established: Vec<usize>,
}

impl View for Lobby {
    type V = LobbyModel;

    closed spec fn view(&self) -> LobbyModel {
        LobbyModel {
            next: self.ids.next_counter(),
            free: self.ids.free_list(),
            conns: conns_model(conn_map_view(self.conns)),
            names: name_map_view(self.names),
            established: self.established@,
        }
    }
}

impl Lobby {
    /// The registry invariant holds of the current state.
    pub open spec fn wf(&self) -> bool {
        self@.inv()
    }

    /// An empty registry: no connections, no names, no pooled ids.
    pub fn new() -> (r: Lobby)
        ensures
            r.wf(),
            r@ == (LobbyModel {
                next: 0,
                free: Seq::empty(),
                conns: Map::empty(),
                names: Map::empty(),
                established: Seq::empty(),
            }),
    {
        let r = Lobby {
            ids: IdAlloc::new(),
            conns: conn_map_new(),
            names: name_map_new(),
            established: Vec::new(),
        };
        proof {
            assert(conns_model(Map::empty()) =~= Map::<usize, ConnModel>::empty());
            assert(r@ =~= (LobbyModel {
                next: 0,
                free: Seq::empty(),
                conns: Map::empty(),
                names: Map::empty(),
                established: Seq::empty(),
            }));
        }
        r
    }

    /// Register a just-accepted connection: allocate its id — the oldest
    /// pooled id, else a fresh one — and insert an entry for it before its
    /// handshake outcome is known. The id never collides with a live
    /// connection.
    pub fn accept_client(&mut self) -> (id: usize)
        requires
            old(self).wf(),
            old(self)@.free.len() > 0 || old(self)@.next < usize::MAX,
        ensures
            final(self).wf(),
            !old(self)@.live(id),
            1 <= id <= final(self)@.next,
            old(self)@.free.len() > 0 ==> {
                &&& id == old(self)@.free[0]
                &&& final(self)@.free == old(self)@.free.drop_first()
                &&& final(self)@.next == old(self)@.next
            },
            old(self)@.free.len() == 0 ==> {
                &&& id == old(self)@.next + 1
                &&& final(self)@.next == old(self)@.next + 1
                &&& final(self)@.free == old(self)@.free
            },
            final(self)@.conns == old(self)@.conns.insert(id, fresh_conn()),
            final(self)@.names == old(self)@.names,
            final(self)@.established == old(self)@.established,
    {
        let ghost s0 = self@;
        let id = self.ids.allocate();
        let entry = ConnEntry {
            queue: Vec::new(),
            closed: false,
            handshaken: false,
            sent: Ghost(Seq::empty()),
            delivered: Ghost(Seq::empty()),
        };
        proof {
            assert(entry@ =~= fresh_conn());
        }
        conn_map_insert(&mut self.conns, id, entry);
        proof {
            let s2 = self@;
            assert(s2.conns =~= s0.conns.insert(id, fresh_conn()));
            if s0.free.contains(id) {
                let j = choose|j: int| 0 <= j < s0.free.len() && s0.free[j] == id;
                assert(!s0.live(s0.free[j]));
            }
            assert(!s0.live(id));
            assert(payloads(Seq::<EventModel>::empty()) =~= Seq::<Seq<u8>>::empty());
            assert forall|k: usize|
                s2.conns.contains_key(k) && #[trigger] s2.conns[k].closed implies s2.free.contains(
                k,
            ) by {
                assert(k != id);
                assert(s0.free.contains(k));
                let j = choose|j: int| 0 <= j < s0.free.len() && s0.free[j] == k;
                if s0.free.len() > 0 && id == s0.free[0] {
                    assert(j != 0);
                    assert(s2.free[j - 1] == k);
                }
            }
            assert forall|j: int| 0 <= j < s2.free.len() implies !s2.live(
                #[trigger] s2.free[j],
            ) by {
                if s0.free.len() > 0 && id == s0.free[0] {
                    assert(s2.free[j] == s0.free[j + 1]);
                    assert(!s0.live(s0.free[j + 1]));
                } else {
                    assert(!s0.live(s0.free[j]));
                }
                assert(s2.free[j] != id);
            }
            assert forall|j: int| 0 <= j < s2.established.len() implies s2.conns.contains_key(
                #[trigger] s2.established[j],
            ) && s2.names.contains_key(s2.established[j]) by {
                assert(s2.established[j] == s0.established[j]);
                assert(s0.conns.contains_key(s0.established[j]));
            }
            assert(s2.inv());
        }
        id
    }

    /// A connection's reader has terminated — its stream ended, or its
    /// handshake failed — so its sending side is gone: the entry is marked
    /// closed, to surface as a disconnect in a later scan, and the id goes
    /// back to the pool at once.
    pub fn client_closed(&mut self, id: usize)
        requires
            old(self).wf(),
            old(self)@.live(id),
        ensures
            final(self).wf(),
            final(self)@ == (LobbyModel {
                conns: old(self)@.conns.insert(
                    id,
                    (ConnModel { closed: true, ..old(self)@.conns[id] }),
                ),
                free: old(self)@.free.push(id),
                ..old(self)@
            }),
    {
        let ghost s0 = self@;
        proof {
            if s0.free.contains(id) {
                let j = choose|j: int| 0 <= j < s0.free.len() && s0.free[j] == id;
                assert(!s0.live(s0.free[j]));
            }
        }
        match conn_map_remove(&mut self.conns, id) {
            Some(mut e) => {
                e.closed = true;
                conn_map_insert(&mut self.conns, id, e);
            },
            None => {},
        }
        self.ids.release(id);
        proof {
            let s2 = self@;
            let target = (LobbyModel {
                conns: s0.conns.insert(id, (ConnModel { closed: true, ..s0.conns[id] })),
                free: s0.free.push(id),
                ..s0
            });
            assert(s2.conns =~= target.conns);
            assert(s2 =~= target);
            assert forall|j: int| 0 <= j < s2.free.len() implies !s2.live(
                #[trigger] s2.free[j],
            ) by {
                if j < s0.free.len() {
                    assert(!s0.live(s0.free[j]));
                    assert(s2.free[j] == s0.free[j]);
                } else {
                    assert(s2.free[j] == id);
                }
            }
            assert forall|k: usize|
                s2.conns.contains_key(k) && #[trigger] s2.conns[k].closed implies s2.free.contains(
                k,
            ) by {
                if k == id {
                    assert(s2.free[s0.free.len() as int] == id);
                } else {
                    assert(s0.free.contains(k));
                    let j = choose|j: int| 0 <= j < s0.free.len() && s0.free[j] == k;
                    assert(s2.free[j] == k);
                }
            }
            assert(s2.inv());
        }
    }

    /// The reader queues a chunk of data the client sent after its
    /// handshake; scan will deliver it later.
    pub fn client_bytes(&mut self, id: usize, data: Vec<u8>)
        requires
            old(self).wf(),
            old(self)@.live(id),
            old(self)@.conns[id].handshaken,
        ensures
            final(self).wf(),
            final(self)@ == (LobbyModel {
                conns: old(self)@.conns.insert(
                    id,
                    (ConnModel {
                        queue: old(self)@.conns[id].queue.push(EventModel::Bytes(data@)),
                        sent: old(self)@.conns[id].sent.push(data@),
                        ..old(self)@.conns[id]
                    }),
                ),
                ..old(self)@
            }),
    {
        let ghost s0 = self@;
        let ghost db = data@;
        match conn_map_remove(&mut self.conns, id) {
            Some(mut e) => {
                e.sent = Ghost(e.sent@.push(db));
                e.queue.push(InboundEvent::Bytes(data));
                proof {
                    assert(e@.queue =~= s0.conns[id].queue.push(EventModel::Bytes(db)));
                }
                conn_map_insert(&mut self.conns, id, e);
            },
            None => {},
        }
        proof {
            let s2 = self@;
            let c0 = s0.conns[id];
            let c2 = (ConnModel {
                queue: c0.queue.push(EventModel::Bytes(db)),
                sent: c0.sent.push(db),
                ..c0
            });
            assert(s2.conns =~= s0.conns.insert(id, c2));
            assert(s2 =~= (LobbyModel { conns: s0.conns.insert(id, c2), ..s0 }));
            lemma_payloads_push(c0.queue, EventModel::Bytes(db));
            assert(c2.delivered + payloads(c2.queue) =~= (c0.delivered + payloads(c0.queue)).push(
                db,
            ));
            assert(s2.inv());
        }
    }

    /// The reader queues a read failure; the connection stays registered
    /// and the reader keeps reading.
    pub fn client_error(&mut self, id: usize, err: NetError)
        requires
            old(self).wf(),
            old(self)@.live(id),
            old(self)@.conns[id].handshaken,
        ensures
            final(self).wf(),
            final(self)@ == (LobbyModel {
                conns: old(self)@.conns.insert(
                    id,
                    (ConnModel {
                        queue: old(self)@.conns[id].queue.push(EventModel::IoError(err.code)),
                        ..old(self)@.conns[id]
                    }),
                ),
                ..old(self)@
            }),
    {
        let ghost s0 = self@;
        match conn_map_remove(&mut self.conns, id) {
            Some(mut e) => {
                e.queue.push(InboundEvent::IoError(err));
                proof {
                    assert(e@.queue =~= s0.conns[id].queue.push(EventModel::IoError(err.code)));
                }
                conn_map_insert(&mut self.conns, id, e);
            },
            None => {},
        }
        proof {
            let s2 = self@;
            let c0 = s0.conns[id];
            let c2 = (ConnModel { queue: c0.queue.push(EventModel::IoError(err.code)), ..c0 });
            assert(s2.conns =~= s0.conns.insert(id, c2));
            assert(s2 =~= (LobbyModel { conns: s0.conns.insert(id, c2), ..s0 }));
            lemma_payloads_push(c0.queue, EventModel::IoError(err.code));
            assert(c2.delivered + payloads(c2.queue) =~= c0.delivered + payloads(c0.queue));
            assert(s2.inv());
        }
    }

    /// The reader has the whole handshake buffer: everything up to and
    /// including the first delimiter byte, or up to the end of the stream
    /// if no delimiter ever came. On success the name is written first and
    /// the completion queued second, so the name is readable from the
    /// moment the Connected event can be observed. On failure the
    /// connection is dropped exactly as on a terminated reader: no event
    /// for this id beyond the eventual disconnect.
    pub fn handshake(&mut self, id: usize, buf: Vec<u8>) -> (r: bool)
        requires
            old(self).wf(),
            old(self)@.live(id),
            !old(self)@.conns[id].handshaken,
        ensures
            final(self).wf(),
            r == (handshake_name(buf@) is Some),
            r ==> match handshake_name(buf@) {
                Some(cs) => final(self)@ == (LobbyModel {
                    conns: old(self)@.conns.insert(
                        id,
                        (ConnModel { handshaken: true, ..old(self)@.conns[id] }),
                    ),
                    names: old(self)@.names.insert(id, cs),
                    established: old(self)@.established.push(id),
                    ..old(self)@
                }),
                None => false,
            },
            !r ==> final(self)@ == (LobbyModel {
                conns: old(self)@.conns.insert(
                    id,
                    (ConnModel { closed: true, ..old(self)@.conns[id] }),
                ),
                free: old(self)@.free.push(id),
                ..old(self)@
            }),
    {
        let ghost s0 = self@;
        let ghost b0 = buf@;
        let mut buf = buf;
        let delim = buf.len() > 0 && buf[buf.len() - 1] == 0u8;
        if !delim {
            self.client_closed(id);
            return false;
        }
        buf.pop();
        match decode_utf8(buf) {
            Some(name) => {
                let ghost cs = name@;
                match conn_map_remove(&mut self.conns, id) {
                    Some(mut e) => {
                        e.handshaken = true;
                        conn_map_insert(&mut self.conns, id, e);
                    },
                    None => {},
                }
                name_map_insert(&mut self.names, id, name);
                self.established.push(id);
                proof {
                    let s2 = self@;
                    let c2 = (ConnModel { handshaken: true, ..s0.conns[id] });
                    assert(s2.conns =~= s0.conns.insert(id, c2));
                    assert(s2 =~= (LobbyModel {
                        conns: s0.conns.insert(id, c2),
                        names: s0.names.insert(id, cs),
                        established: s0.established.push(id),
                        ..s0
                    }));
                    assert(s2.inv());
                }
                true
            },
            None => {
                self.client_closed(id);
                false
            },
        }
    }

    /// The registered name of a client, if its handshake completed.
    pub fn name(&self, client: usize) -> (r: Option<String>)
        ensures
            match r {
                Some(s) => self@.names.contains_key(client) && s@ == self@.names[client],
                None => !self@.names.contains_key(client),
            },
    {
        name_map_get(&self.names, client)
    }

    /// Whether another connection can be registered: an id is pooled, or
    /// the counter has room for a fresh one.
    pub fn can_accept(&self) -> (r: bool)
        ensures
            r == (self@.free.len() > 0 || self@.next < usize::MAX),
    {
        self.ids.has_capacity()
    }

    /// Whether an id currently has a registry entry.
    pub fn is_registered(&self, id: usize) -> (r: bool)
        ensures
            r == self@.conns.contains_key(id),
    {
        conn_map_contains(&self.conns, id)
    }

    /// One non-blocking poll, as a list: first every undrained handshake
    /// completion, oldest first, as a Connected event; then one look at
    /// each registered connection, in some total visiting order — its
    /// oldest queued event if one is pending, a Disconnected event if its
    /// reader is gone and nothing is queued (the entry is then removed),
    /// and nothing otherwise. With nothing pending, the list is empty.
    pub fn scan_events(&mut self) -> (r: Vec<(usize, ScanResult)>)
        requires
            old(self).wf(),
        ensures
            final(self).wf(),
            exists|ks: Seq<usize>|
                #[trigger] valid_visit(old(self)@.conns.dom(), ks) && events_view(r@)
                    == scan_output(old(self)@, ks) && final(self)@ == scan_state(old(self)@, ks),
    {
        let ghost s0 = self@;
        let mut events: Vec<(usize, ScanResult)> = Vec::new();

        proof {
            assert(s0.established.take(0) =~= Seq::<usize>::empty());
            assert(events_view(events@) =~= connected_events(s0.established.take(0)));
        }
        let mut i: usize = 0;
        while i < self.established.len()
            invariant
                self@ == s0,
                0 <= i <= s0.established.len(),
                events_view(events@) == connected_events(s0.established.take(i as int)),
            decreases s0.established.len() - i,
        {
            let id = self.established[i];
            events.push((id, ScanResult::Connected));
            proof {
                assert(s0.established.take(i as int + 1) =~= s0.established.take(i as int).push(
                    id,
                ));
                assert(events_view(events@) =~= connected_events(s0.established.take(i as int))
                    .push((id, ScanEvent::Connected)));
                assert(connected_events(s0.established.take(i as int + 1)) =~= connected_events(
                    s0.established.take(i as int),
                ).push((id, ScanEvent::Connected)));
            }
            i += 1;
        }
        proof {
            assert(s0.established.take(s0.established.len() as int) =~= s0.established);
        }
        self.established = Vec::new();
        proof {
            assert(self@ =~= (LobbyModel { established: Seq::<usize>::empty(), ..s0 }));
            assert(self@.inv());
        }

        let keys = conn_map_keys(&self.conns);
        let ghost ks = keys@;
        let ghost m0 = s0.conns;
        proof {
            lemma_ascending_no_duplicates(ks);
            assert forall|k: usize| ks.contains(k) <==> m0.contains_key(k) by {
                assert(ks.contains(k) <==> conn_map_view(self.conns).contains_key(k));
            }
            assert(valid_visit(m0.dom(), ks));
            assert(ks.skip(0) =~= ks);
            assert(events_view(events@) + poll_events(m0, ks.skip(0)) =~= connected_events(
                s0.established,
            ) + poll_events(m0, ks));
        }
        let mut j: usize = 0;
        while j < keys.len()
            invariant
                0 <= j <= ks.len(),
                keys@ == ks,
                valid_visit(m0.dom(), ks),
                forall|a: int, b: int| 0 <= a < b < ks.len() ==> ks[a] < ks[b],
                self@.next == s0.next,
                self@.free == s0.free,
                self@.names == s0.names,
                self@.established == Seq::<usize>::empty(),
                self@.inv(),
                forall|t: int|
                    j <= t < ks.len() ==> self@.conns.contains_key(#[trigger] ks[t])
                        && self@.conns[ks[t]] == m0[ks[t]],
                poll_map(m0, ks) == poll_map(self@.conns, ks.skip(j as int)),
                connected_events(s0.established) + poll_events(m0, ks) == events_view(events@)
                    + poll_events(m0, ks.skip(j as int)),
            decreases ks.len() - j,
        {
            let k = keys[j];
            let ghost s_before = self@;
            let ghost cur = self@.conns;
            let ghost ev_before = events@;
            proof {
                assert(ks.skip(j as int)[0] == ks[j as int]);
                assert(ks.skip(j as int).drop_first() =~= ks.skip(j as int + 1));
                assert(cur.contains_key(k) && cur[k] == m0[k]);
            }
            match conn_map_remove(&mut self.conns, k) {
                Some(mut e) => {
                    if e.queue.len() > 0 {
                        let ev = e.queue.remove(0);
                        proof {
                            assert(e@.queue =~= cur[k].queue.drop_first());
                            assert(ev@ == cur[k].queue[0]);
                        }
                        match ev {
                            InboundEvent::Bytes(b) => {
                                let ghost bb = b@;
                                e.delivered = Ghost(e.delivered@.push(bb));
                                events.push((k, ScanResult::Data(b)));
                                proof {
                                    assert(events_view(events@) =~= events_view(ev_before).push(
                                        (k, ScanEvent::Data(bb)),
                                    ));
                                    assert(poll_one_events(m0, k) =~= seq![
                                        (k, ScanEvent::Data(bb)),
                                    ]);
                                }
                            },
                            InboundEvent::IoError(err) => {
                                events.push((k, ScanResult::IoError(err)));
                                proof {
                                    assert(events_view(events@) =~= events_view(ev_before).push(
                                        (k, ScanEvent::IoError(err.code)),
                                    ));
                                    assert(poll_one_events(m0, k) =~= seq![
                                        (k, ScanEvent::IoError(err.code)),
                                    ]);
                                }
                            },
                        }
                        proof {
                            assert(e@ =~= entry_after(cur[k]));
                        }
                        conn_map_insert(&mut self.conns, k, e);
                        proof {
                            assert(self@.conns =~= poll_one(cur, k));
                        }
                    } else if e.closed {
                        events.push((k, ScanResult::Disconnected));
                        proof {
                            assert(events_view(events@) =~= events_view(ev_before).push(
                                (k, ScanEvent::Disconnected),
                            ));
                            assert(poll_one_events(m0, k) =~= seq![(k, ScanEvent::Disconnected)]);
                            assert(!entry_kept(cur[k]));
                            assert(self@.conns =~= poll_one(cur, k));
                        }
                    } else {
                        conn_map_insert(&mut self.conns, k, e);
                        proof {
                            assert(poll_one_events(m0, k) =~= Seq::<(usize, ScanEvent)>::empty());
                            assert(events_view(events@) =~= events_view(ev_before));
                            assert(entry_after(cur[k]) == cur[k]);
                            assert(self@.conns =~= poll_one(cur, k));
                        }
                    }
                },
                None => {},
            }
            proof {
                lemma_poll_one_inv(s_before, k);
                assert(self@ =~= (LobbyModel { conns: poll_one(cur, k), ..s_before }));
                assert(self@.inv());
                assert(poll_events(m0, ks.skip(j as int)) == poll_one_events(m0, k) + poll_events(
                    m0,
                    ks.skip(j as int + 1),
                ));
                assert(events_view(events@) + poll_events(m0, ks.skip(j as int + 1))
                    =~= (events_view(ev_before) + poll_one_events(m0, k)) + poll_events(
                    m0,
                    ks.skip(j as int + 1),
                ));
                assert(events_view(ev_before) + poll_events(m0, ks.skip(j as int))
                    =~= (events_view(ev_before) + poll_one_events(m0, k)) + poll_events(
                    m0,
                    ks.skip(j as int + 1),
                ));
                assert(poll_map(cur, ks.skip(j as int)) == poll_map(
                    poll_one(cur, k),
                    ks.skip(j as int + 1),
                ));
                assert forall|t: int|
                    j + 1 <= t < ks.len() implies self@.conns.contains_key(#[trigger] ks[t])
                    && self@.conns[ks[t]] == m0[ks[t]] by {
                    assert(ks[j as int] < ks[t]);
                    assert(cur.contains_key(ks[t]) && cur[ks[t]] == m0[ks[t]]);
                }
            }
            j += 1;
        }
        proof {
            assert(ks.skip(ks.len() as int) =~= Seq::<usize>::empty());
            assert(poll_map(m0, ks) == self@.conns);
            assert(connected_events(s0.established) + poll_events(m0, ks) =~= events_view(
                events@,
            ) + poll_events(m0, ks.skip(ks.len() as int)));
            assert(events_view(events@) + Seq::<(usize, ScanEvent)>::empty() =~= events_view(
                events@,
            ));
            assert(events_view(events@) == scan_output(s0, ks));
            assert(self@ =~= scan_state(s0, ks));
            assert(valid_visit(s0.conns.dom(), ks));
        }
        events
    }

    /// One non-blocking poll: every event `scan_events` reports is handed
    /// to the callback, in the same order. With nothing pending the
    /// callback is never invoked.
    pub fn scan<F: Fn(usize, ScanResult)>(&mut self, callback: F)
        requires
            old(self).wf(),
            forall|id: usize, ev: ScanResult| #[trigger] callback.requires((id, ev)),
        ensures
            final(self).wf(),
            exists|ks: Seq<usize>|
                #[trigger] valid_visit(old(self)@.conns.dom(), ks) && final(self)@ == scan_state(
                    old(self)@,
                    ks,
                ),
    {
        let mut events = self.scan_events();
        while events.len() > 0
            invariant
                forall|id: usize, ev: ScanResult| #[trigger] callback.requires((id, ev)),
            decreases events.len(),
        {
            let (id, ev) = events.remove(0);
            callback(id, ev);
        }
    }

    /// The ids a predicate-based broadcast writes to: every registered id
    /// the predicate picks, each once, in ascending order. Writing itself
    /// is the application's: it happens outside the registry, and a write
    /// failure never unregisters a connection — only scan's disconnect
    /// path does.
    pub fn recipients<P: Fn(usize) -> bool>(&self, predicate: P) -> (r: Vec<usize>)
        requires
            forall|i: usize| #[trigger] predicate.requires((i,)),
        ensures
            strictly_ascending(r@),
            forall|t: int|
                0 <= t < r@.len() ==> self@.conns.contains_key(#[trigger] r@[t])
                    && predicate.ensures((r@[t],), true),
            forall|i: usize|
                #[trigger] self@.conns.contains_key(i) && must_pick(predicate, i) ==> r@.contains(
                    i,
                ),
    {
        let keys = conn_map_keys(&self.conns);
        let mut r: Vec<usize> = Vec::new();
        let mut j: usize = 0;
        while j < keys.len()
            invariant
                forall|i: usize| #[trigger] predicate.requires((i,)),
                0 <= j <= keys@.len(),
                forall|a: int, b: int| 0 <= a < b < keys@.len() ==> keys@[a] < keys@[b],
                forall|k: usize| keys@.contains(k) <==> self@.conns.contains_key(k),
                forall|t: int|
                    0 <= t < r@.len() ==> exists|u: int|
                        0 <= u < j && keys@[u] == #[trigger] r@[t],
                strictly_ascending(r@),
                forall|t: int|
                    0 <= t < r@.len() ==> self@.conns.contains_key(#[trigger] r@[t])
                        && predicate.ensures((r@[t],), true),
                forall|u: int|
                    0 <= u < j && must_pick(predicate, #[trigger] keys@[u]) ==> r@.contains(
                        keys@[u],
                    ),
            decreases keys@.len() - j,
        {
            let k = keys[j];
            proof {
                assert(keys@.contains(keys@[j as int]));
            }
            let picked = predicate(k);
            let ghost r_before = r@;
            if picked {
                proof {
                    assert forall|t: int| 0 <= t < r@.len() implies #[trigger] r@[t] < k by {
                        let u = choose|u: int| 0 <= u < j && keys@[u] == r@[t];
                        assert(keys@[u] < keys@[j as int]);
                    }
                }
                r.push(k);
            }
            proof {
                assert forall|u: int|
                    0 <= u < j + 1 && must_pick(predicate, #[trigger] keys@[u]) implies r@
                    .contains(keys@[u]) by {
                    if u < j {
                        assert(r_before.contains(keys@[u]));
                        let t = choose|t: int| 0 <= t < r_before.len() && r_before[t] == keys@[u];
                        assert(r@[t] == keys@[u]);
                    } else {
                        assert(predicate.ensures((k,), picked));
                        assert(picked);
                        assert(r@[r@.len() - 1] == k);
                    }
                }
            }
            j += 1;
        }
        proof {
            assert forall|i: usize|
                #[trigger] self@.conns.contains_key(i) && must_pick(predicate, i) implies r@
                .contains(i) by {
                assert(keys@.contains(i));
                let u = choose|u: int| 0 <= u < keys@.len() && keys@[u] == i;
                assert(must_pick(predicate, keys@[u]));
            }
        }
        r
    }

    /// Broadcast to everyone: every registered id, in ascending order.
    pub fn recipients_all(&self) -> (r: Vec<usize>)
        ensures
            strictly_ascending(r@),
            forall|i: usize| r@.contains(i) <==> self@.conns.contains_key(i),
    {
        let everyone = |i: usize| -> (b: bool)
            ensures
                b,
            { true };
        let r = self.recipients(everyone);
        proof {
            assert forall|i: usize| r@.contains(i) <==> self@.conns.contains_key(i) by {
                if r@.contains(i) {
                    let t = choose|t: int| 0 <= t < r@.len() && r@[t] == i;
                    assert(self@.conns.contains_key(r@[t]));
                }
                if self@.conns.contains_key(i) {
                    assert(must_pick(everyone, i));
                }
            }
        }
        r
    }

    /// Message exactly one client: its id alone, if it is registered.
    pub fn recipients_one(&self, client: usize) -> (r: Vec<usize>)
        ensures
            r@ == if self@.conns.contains_key(client) {
                seq![client]
            } else {
                Seq::<usize>::empty()
            },
    {
        let just_one = |i: usize| -> (b: bool)
            ensures
                b == (i == client),
            { i == client };
        let r = self.recipients(just_one);
        proof {
            assert forall|t: int| 0 <= t < r@.len() implies #[trigger] r@[t] == client by {
                assert(just_one.ensures((r@[t],), true));
            }
            if self@.conns.contains_key(client) {
                assert(must_pick(just_one, client));
                assert(r@.contains(client));
                let t = choose|t: int| 0 <= t < r@.len() && r@[t] == client;
                if r@.len() > 1 {
                    assert(r@[0] == client && r@[1] == client);
                    assert(r@[0] < r@[1]);
                }
                assert(r@ =~= seq![client]);
            } else {
                if r@.len() > 0 {
                    assert(self@.conns.contains_key(r@[0]));
                }
                assert(r@ =~= Seq::<usize>::empty());
            }
        }
        r
    }

    /// Message everyone but one client — the usual shape of one client
    /// addressing the others: every registered id except the given one, in
    /// ascending order.
    pub fn recipients_rest(&self, client: usize) -> (r: Vec<usize>)
        ensures
            strictly_ascending(r@),
            forall|i: usize|
                r@.contains(i) <==> (self@.conns.contains_key(i) && i != client),
    {
        let others = |i: usize| -> (b: bool)
            ensures
                b == (i != client),
            { i != client };
        let r = self.recipients(others);
        proof {
            assert forall|i: usize|
                r@.contains(i) <==> (self@.conns.contains_key(i) && i != client) by {
                if r@.contains(i) {
                    let t = choose|t: int| 0 <= t < r@.len() && r@[t] == i;
                    assert(self@.conns.contains_key(r@[t]));
                    assert(others.ensures((r@[t],), true));
                }
                if self@.conns.contains_key(i) && i != client {
                    assert(must_pick(others, i));
                }
            }
        }
        r
    }
}

/// The predicate leaves the broadcast no choice about an id: every answer
/// it can give for that id is yes.
pub open spec fn must_pick<P: Fn(usize) -> bool>(predicate: P, i: usize) -> bool {
    forall|b: bool| #[trigger] predicate.ensures((i,), b) ==> b
}

} // verus!
