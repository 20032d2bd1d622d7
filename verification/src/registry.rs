//! The shared table of live server-side connections.
//!
//! One record per connection, keyed by its opaque identity.  The acceptor
//! inserts a record when a WebSocket upgrade completes, the read task
//! appends decoded frames and flips the liveness flag on close, and the
//! poll bridge reconciles host handles, drains inbound buffers and
//! dispatches outbound sends — all through the operations here, whose
//! contracts pin the whole table before and after.

use crate::channel::push_model;
use crate::channel::OutboundChannel;
use crate::codec::decode;
use crate::codec::encode;
use crate::codec::spec_decode;
use crate::codec::spec_decode_err;
use crate::codec::spec_encode;
use crate::codec::AppMessage;
use crate::codec::DecodeError;
use crate::codec::msgs_view;
use crate::codec::MessageView;
use crate::identity::mint_identity;
use vstd::prelude::*;

verus! {

/// Listen configuration of the server acceptor.
pub struct WebServerSettings {
    pub port: u16,
}

impl Default for WebServerSettings {
    /// The default listen port.
    fn default() -> (r: WebServerSettings)
        ensures
            r.port == 8080,
    {
        WebServerSettings { port: 8080 }
    }
}

/// The host-visible handle of one live connection.
pub struct Connection {
    pub id: u128,
}

/// A host-produced request to send `msg` to the connection `connection_id`.
pub struct ServerSendPacket {
    pub connection_id: u128,
    pub msg: AppMessage,
}

impl View for ServerSendPacket {
    type V = (u128, MessageView);

    open spec fn view(&self) -> (u128, MessageView) {
        (self.connection_id, self.msg@)
    }
}

/// One inbound message, tagged with the connection it arrived on.
pub struct ServerRecvPacket {
    pub connection: u128,
    pub msg: AppMessage,
}

impl View for ServerRecvPacket {
    type V = (u128, MessageView);

    open spec fn view(&self) -> (u128, MessageView) {
        (self.connection, self.msg@)
    }
}

/// The mathematical value of one connection record.
#[verifier::ext_equal]
pub struct RecordView {
    /// The connection's identity, immutable for its whole lifetime.
    pub id: u128,
    /// True from the completed handshake until the read side observes
    /// close or error; never true again afterwards.
    pub live: bool,
    /// Decoded messages awaiting the next inbound drain, oldest first.
    pub inbound: Seq<MessageView>,
    /// Messages awaiting the connection's socket writer, oldest first.
    pub outbound: Seq<MessageView>,
    /// Capacity of the outbound channel.
    pub cap: nat,
    /// The host handle, present exactly while the poll bridge has seen
    /// the record live and not yet torn it down.
    pub handle: Option<u64>,
}

/// One per live or recently-live connection.
pub struct ConnectionRecord {
    id: u128,
    live: bool,
    inbound: Vec<AppMessage>,
    outbound: OutboundChannel,
    handle: Option<u64>,
}

impl View for ConnectionRecord {
    type V = RecordView;

    closed spec fn view(&self) -> RecordView {
        RecordView {
            id: self.id,
            live: self.live,
            inbound: self.inbound@.map_values(|m: AppMessage| m@),
            outbound: self.outbound@,
            cap: self.outbound.cap(),
            handle: self.handle,
        }
    }
}

impl ConnectionRecord {
    pub closed spec fn wf(&self) -> bool {
        self.outbound.wf()
    }
}

/// No two records share an identity.
pub open spec fn ids_unique(s: Seq<RecordView>) -> bool {
    forall|i: int, j: int| 0 <= i < j < s.len() ==> s[i].id != s[j].id
}

/// Whether some record carries the identity `id`.
pub open spec fn has_id(s: Seq<RecordView>, id: u128) -> bool {
    exists|i: int| 0 <= i < s.len() && s[i].id == id
}

/// The index of the record carrying `id` (meaningful when `has_id`).
pub open spec fn index_of(s: Seq<RecordView>, id: u128) -> int {
    choose|i: int| 0 <= i < s.len() && s[i].id == id
}

/// Under unique identities, `index_of` is the one index that carries `id`.
pub proof fn lemma_index_of_unique(s: Seq<RecordView>, id: u128, i: int)
    requires
        ids_unique(s),
        0 <= i < s.len(),
        s[i].id == id,
    ensures
        has_id(s, id),
        index_of(s, id) == i,
{
    assert(has_id(s, id));
    let j = index_of(s, id);
    assert(0 <= j < s.len() && s[j].id == id);
}

/// At most one host handle per identity: under unique identities, any two
/// record positions carrying the same identity are the same position, so
/// an identity can never map to two handles.
pub proof fn lemma_at_most_one_handle(s: Seq<RecordView>, i: int, j: int)
    requires
        ids_unique(s),
        0 <= i < s.len(),
        0 <= j < s.len(),
        s[i].id == s[j].id,
    ensures
        i == j,
{
}

/// What closing a connection does to the table: its record's liveness flag
/// falls, everything else stands.
pub open spec fn close_model(s: Seq<RecordView>, id: u128) -> Seq<RecordView> {
    if has_id(s, id) {
        let i = index_of(s, id);
        s.update(i, RecordView { live: false, ..s[i] })
    } else {
        s
    }
}

/// What one decoded inbound message does to the table: appended to its
/// record's inbound buffer, in arrival order.
pub open spec fn append_model(s: Seq<RecordView>, id: u128, m: MessageView) -> Seq<RecordView> {
    if has_id(s, id) {
        let i = index_of(s, id);
        s.update(i, RecordView { inbound: s[i].inbound.push(m), ..s[i] })
    } else {
        s
    }
}

/// What one outbound send does to the table: queued on the live target's
/// bounded channel (dropped when full); a dead or absent target drops the
/// message silently and changes nothing.
pub open spec fn send_model(s: Seq<RecordView>, id: u128, m: MessageView) -> Seq<RecordView> {
    if has_id(s, id) && s[index_of(s, id)].live {
        let i = index_of(s, id);
        s.update(i, RecordView { outbound: push_model(s[i].outbound, s[i].cap, m), ..s[i] })
    } else {
        s
    }
}

/// A lifecycle event the reconciliation phase reports to the host.
#[derive(Clone, Copy, Debug, PartialEq, Eq, Structural)]
pub enum ConnectionEvent {
    /// A live record was seen without a host handle: one was created.
    Established { id: u128, handle: u64 },
    /// A dead record's host handle was torn down; the record is removed.
    Lost { id: u128, handle: u64 },
}

/// The view of a packet sequence: identity and message value, in order.
pub open spec fn packets_view(v: Seq<ServerRecvPacket>) -> Seq<(u128, MessageView)> {
    v.map_values(|p: ServerRecvPacket| p@)
}

/// The identities of a handle list, in order.
pub open spec fn connection_ids(v: Seq<Connection>) -> Seq<u128> {
    v.map_values(|c: Connection| c.id)
}

/// The view of a send-request sequence, in order.
pub open spec fn sends_view(v: Seq<ServerSendPacket>) -> Seq<(u128, MessageView)> {
    v.map_values(|p: ServerSendPacket| p@)
}

/// Messages tagged with the connection they belong to, in order.
pub open spec fn tag_with(id: u128, ms: Seq<MessageView>) -> Seq<(u128, MessageView)> {
    ms.map_values(|m: MessageView| (id, m))
}

/// The records that survive reconciliation from position `i` on, given
/// that the next fresh host handle is `n`: dead records are removed, live
/// ones keep or gain a handle.
pub open spec fn reconcile_records_from(s: Seq<RecordView>, i: int, n: u64) -> Seq<RecordView>
    decreases s.len() - i,
{
    if i < 0 || i >= s.len() {
        Seq::<RecordView>::empty()
    } else if !s[i].live {
        reconcile_records_from(s, i + 1, n)
    } else if s[i].handle is None {
        seq![RecordView { handle: Some(n), ..s[i] }] + reconcile_records_from(
            s,
            i + 1,
            ((n + 1) as u64),
        )
    } else {
        seq![s[i]] + reconcile_records_from(s, i + 1, n)
    }
}

/// The lifecycle events reconciliation reports from position `i` on: a
/// handle created for each live record without one, a handle torn down
/// for each dead record that had one.  A dead record that never gained a
/// handle vanishes without an event — the host never observed it.
pub open spec fn reconcile_events_from(s: Seq<RecordView>, i: int, n: u64) -> Seq<ConnectionEvent>
    decreases s.len() - i,
{
    if i < 0 || i >= s.len() {
        Seq::<ConnectionEvent>::empty()
    } else if !s[i].live {
        match s[i].handle {
            Some(h) => seq![ConnectionEvent::Lost { id: s[i].id, handle: h }]
                + reconcile_events_from(s, i + 1, n),
            None => reconcile_events_from(s, i + 1, n),
        }
    } else if s[i].handle is None {
        seq![ConnectionEvent::Established { id: s[i].id, handle: n }] + reconcile_events_from(
            s,
            i + 1,
            ((n + 1) as u64),
        )
    } else {
        reconcile_events_from(s, i + 1, n)
    }
}

/// How many host handles reconciliation creates from position `i` on.
pub open spec fn new_handles_from(s: Seq<RecordView>, i: int) -> int
    decreases s.len() - i,
{
    if i < 0 || i >= s.len() {
        0
    } else {
        (if s[i].live && s[i].handle is None {
            1int
        } else {
            0int
        }) + new_handles_from(s, i + 1)
    }
}

/// What a full reconciliation pass leaves in the table.
pub open spec fn reconcile_model(s: Seq<RecordView>, n: u64) -> Seq<RecordView> {
    reconcile_records_from(s, 0, n)
}

/// The events a full reconciliation pass reports.
pub open spec fn reconcile_events(s: Seq<RecordView>, n: u64) -> Seq<ConnectionEvent> {
    reconcile_events_from(s, 0, n)
}

/// How many host handles a full reconciliation pass creates.
pub open spec fn new_handles(s: Seq<RecordView>) -> int {
    new_handles_from(s, 0)
}

/// Reconciliation creates at least zero handles and at most one per
/// record it has not yet visited.
pub proof fn lemma_new_handles_bounds(s: Seq<RecordView>, i: int)
    requires
        0 <= i <= s.len(),
    ensures
        0 <= new_handles_from(s, i) <= s.len() - i,
    decreases s.len() - i,
{
    if i < s.len() {
        lemma_new_handles_bounds(s, i + 1);
    }
}

/// The inbound events of one drain pass from position `i` on: every
/// record's buffered messages, tagged with its identity, connections in
/// table order and each connection's messages in arrival order.
pub open spec fn drained_from(s: Seq<RecordView>, i: int) -> Seq<(u128, MessageView)>
    decreases s.len() - i,
{
    if i < 0 || i >= s.len() {
        Seq::<(u128, MessageView)>::empty()
    } else {
        tag_with(s[i].id, s[i].inbound) + drained_from(s, i + 1)
    }
}

/// All inbound events of one drain pass.
pub open spec fn drained(s: Seq<RecordView>) -> Seq<(u128, MessageView)> {
    drained_from(s, 0)
}

/// The table after a drain pass: every inbound buffer empty, nothing else
/// touched.
pub open spec fn clear_inbound_model(s: Seq<RecordView>) -> Seq<RecordView> {
    s.map_values(|r: RecordView| RecordView { inbound: Seq::<MessageView>::empty(), ..r })
}

/// The table after the outbound dispatch phase has offered each send
/// request in turn, from position `k` of the request list on.
pub open spec fn dispatch_from(
    s: Seq<RecordView>,
    sends: Seq<(u128, MessageView)>,
    k: int,
) -> Seq<RecordView>
    decreases sends.len() - k,
{
    if k < 0 || k >= sends.len() {
        s
    } else {
        dispatch_from(send_model(s, sends[k].0, sends[k].1), sends, k + 1)
    }
}

/// The table after a full dispatch pass.
pub open spec fn dispatch_model(s: Seq<RecordView>, sends: Seq<(u128, MessageView)>) -> Seq<
    RecordView,
> {
    dispatch_from(s, sends, 0)
}

/// The identities the host currently holds a handle for, from position
/// `i` on, in table order.
pub open spec fn handles_from(s: Seq<RecordView>, i: int) -> Seq<u128>
    decreases s.len() - i,
{
    if i < 0 || i >= s.len() {
        Seq::<u128>::empty()
    } else if s[i].handle is Some {
        seq![s[i].id] + handles_from(s, i + 1)
    } else {
        handles_from(s, i + 1)
    }
}

/// Every record reconciliation keeps is live, and stood live in the old
/// table under the same identity: a record whose liveness flag has fallen
/// is torn down and its identity never reappears.
pub proof fn lemma_reconcile_keeps_live(s: Seq<RecordView>, i: int, n: u64)
    requires
        0 <= i <= s.len(),
    ensures
        forall|k: int|
            0 <= k < reconcile_records_from(s, i, n).len() ==> {
                let r = #[trigger] reconcile_records_from(s, i, n)[k];
                r.live && r.handle is Some && exists|j: int|
                    i <= j < s.len() && s[j].id == r.id && s[j].live && s[j].inbound == r.inbound
                        && s[j].outbound == r.outbound
            },
    decreases s.len() - i,
{
    if i < s.len() {
        lemma_reconcile_keeps_live(s, i + 1, n);
        lemma_reconcile_keeps_live(s, i + 1, ((n + 1) as u64));
        if s[i].live {
            assert forall|k: int|
                0 <= k < reconcile_records_from(s, i, n).len() implies {
                let r = #[trigger] reconcile_records_from(s, i, n)[k];
                r.live && r.handle is Some && exists|j: int|
                    i <= j < s.len() && s[j].id == r.id && s[j].live && s[j].inbound == r.inbound
                        && s[j].outbound == r.outbound
            } by {
                let r = reconcile_records_from(s, i, n)[k];
                if k == 0 {
                    assert(s[i].id == r.id && s[i].live && s[i].inbound == r.inbound && s[i].outbound
                        == r.outbound);
                }
            }
        }
    }
}

/// The table of all live connection records, polled once per tick.
pub struct Registry {
    records: Vec<ConnectionRecord>,
    next_handle: u64,
    cap: usize,
}

/// The view of a record sequence, in order.
pub(crate) open spec fn recs_view(v: Seq<ConnectionRecord>) -> Seq<RecordView> {
    v.map_values(|r: ConnectionRecord| r@)
}

impl View for Registry {
    type V = Seq<RecordView>;

    closed spec fn view(&self) -> Seq<RecordView> {
        recs_view(self.records@)
    }
}

impl Registry {
    /// The next host handle the poll bridge will assign.
    pub closed spec fn next_handle(&self) -> u64 {
        self.next_handle
    }

    /// The next host handle, readable by the caller: together with `len`
    /// it bounds what a reconciliation pass may assign.
    pub fn next_handle_value(&self) -> (r: u64)
        ensures
            r == self.next_handle(),
    {
        self.next_handle
    }

    /// The outbound capacity every record is created with.
    pub closed spec fn cap(&self) -> nat {
        self.cap as nat
    }

    pub open spec fn wf(&self) -> bool {
        ids_unique(self@) && self.records_wf()
    }

    pub closed spec fn records_wf(&self) -> bool {
        self.cap >= 1 && forall|i: int|
            0 <= i < self.records@.len() ==> (#[trigger] self.records@[i]).wf()
                && self.records@[i]@.cap == self.cap
    }

    /// An empty registry whose records will carry outbound channels of
    /// capacity `cap`.
    pub fn new(cap: usize) -> (r: Registry)
        requires
            cap >= 1,
        ensures
            r.wf(),
            r@ == Seq::<RecordView>::empty(),
            r.next_handle() == 0,
            r.cap() == cap,
    {
        let r = Registry { records: Vec::new(), next_handle: 0, cap };
        proof {
            assert(r@ =~= Seq::<RecordView>::empty());
        }
        r
    }

    /// The position of the record carrying `id`, if any.
    fn find(&self, id: u128) -> (r: Option<usize>)
        requires
            self.wf(),
        ensures
            match r {
                Some(i) => i < self@.len() && self@[i as int].id == id && has_id(self@, id)
                    && index_of(self@, id) == i,
                None => !has_id(self@, id),
            },
    {
        let mut i: usize = 0;
        while i < self.records.len()
            invariant
                i <= self.records@.len(),
                self.wf(),
                forall|j: int| 0 <= j < i ==> self@[j].id != id,
            decreases self.records@.len() - i,
        {
            if self.records[i].id == id {
                proof {
                    lemma_index_of_unique(self@, id, i as int);
                }
                return Some(i);
            }
            i += 1;
        }
        proof {
            if has_id(self@, id) {
                let j = index_of(self@, id);
                assert(self@[j].id == id);
            }
        }
        None
    }

    /// Whether a record carrying `id` is in the table.
    pub fn contains(&self, id: u128) -> (r: bool)
        requires
            self.wf(),
        ensures
            r == has_id(self@, id),
    {
        self.find(id).is_some()
    }

    /// How many records the table holds.
    pub fn len(&self) -> (r: usize)
        ensures
            r == self@.len(),
    {
        self.records.len()
    }

    /// Registers a connection whose WebSocket upgrade just completed,
    /// under the identity `id`: a fresh record, live, with empty buffers
    /// and no host handle yet.  A stale identity is refused, so an
    /// identity is never reused while its record stands.
    pub fn insert_with_id(&mut self, id: u128) -> (accepted: bool)
        requires
            old(self).wf(),
        ensures
            final(self).wf(),
            final(self).cap() == old(self).cap(),
            final(self).next_handle() == old(self).next_handle(),
            accepted == !has_id(old(self)@, id),
            accepted ==> final(self)@ == old(self)@.push(
                (RecordView {
                    id,
                    live: true,
                    inbound: Seq::<MessageView>::empty(),
                    outbound: Seq::<MessageView>::empty(),
                    cap: old(self).cap(),
                    handle: None,
                }),
            ),
            !accepted ==> final(self)@ == old(self)@,
    {
        if self.contains(id) {
            return false;
        }
        let rec = ConnectionRecord {
            id,
            live: true,
            inbound: Vec::new(),
            outbound: OutboundChannel::new(self.cap),
            handle: None,
        };
        self.records.push(rec);
        proof {
            assert(self@ =~~= old(self)@.push(
                (RecordView {
                    id,
                    live: true,
                    inbound: Seq::<MessageView>::empty(),
                    outbound: Seq::<MessageView>::empty(),
                    cap: old(self).cap(),
                    handle: None,
                }),
            ));
            assert forall|i: int, j: int| 0 <= i < j < self@.len() implies self@[i].id
                != self@[j].id by {
                if j < old(self)@.len() {
                    assert(old(self)@[i].id != old(self)@[j].id);
                } else {
                    assert(!has_id(old(self)@, id));
                    assert(old(self)@[i].id != id);
                }
            }
        }
        true
    }

    /// Accepts a connection under a freshly minted random identity.  The
    /// mint promises nothing, so the registry checks freshness itself: on
    /// the negligible collision the connection is refused and the table
    /// stands unchanged.
    pub fn accept(&mut self) -> (r: Option<u128>)
        requires
            old(self).wf(),
        ensures
            final(self).wf(),
            final(self).cap() == old(self).cap(),
            final(self).next_handle() == old(self).next_handle(),
            match r {
                Some(id) => !has_id(old(self)@, id) && final(self)@ == old(self)@.push(
                    (RecordView {
                        id,
                        live: true,
                        inbound: Seq::<MessageView>::empty(),
                        outbound: Seq::<MessageView>::empty(),
                        cap: old(self).cap(),
                        handle: None,
                    }),
                ),
                None => final(self)@ == old(self)@,
            },
    {
        let id = mint_identity();
        if self.insert_with_id(id) {
            Some(id)
        } else {
            None
        }
    }

    /// Records that the read side of connection `id` observed close or
    /// error: its liveness flag falls, once and for all; an unknown
    /// identity changes nothing.
    pub fn mark_closed(&mut self, id: u128)
        requires
            old(self).wf(),
        ensures
            final(self).wf(),
            final(self).cap() == old(self).cap(),
            final(self).next_handle() == old(self).next_handle(),
            final(self)@ == close_model(old(self)@, id),
    {
        let found = self.find(id);
        if let Some(i) = found {
            let mut rec = self.records.remove(i);
            rec.live = false;
            self.records.insert(i, rec);
            proof {
                assert(self@ =~= close_model(old(self)@, id));
                assert forall|a: int, b: int| 0 <= a < b < self@.len() implies self@[a].id
                    != self@[b].id by {
                    assert(old(self)@[a].id != old(self)@[b].id);
                }
            }
        }
    }

    /// Appends a decoded inbound message to its connection's buffer; an
    /// unknown identity changes nothing.
    pub fn append_inbound(&mut self, id: u128, m: AppMessage) -> (appended: bool)
        requires
            old(self).wf(),
        ensures
            final(self).wf(),
            final(self).cap() == old(self).cap(),
            final(self).next_handle() == old(self).next_handle(),
            appended == has_id(old(self)@, id),
            final(self)@ == append_model(old(self)@, id, m@),
    {
        let found = self.find(id);
        if let Some(i) = found {
            let mut rec = self.records.remove(i);
            rec.inbound.push(m);
            self.records.insert(i, rec);
            proof {
                assert(self@ =~~= append_model(old(self)@, id, m@));
                assert forall|a: int, b: int| 0 <= a < b < self@.len() implies self@[a].id
                    != self@[b].id by {
                    assert(old(self)@[a].id != old(self)@[b].id);
                }
            }
            true
        } else {
            false
        }
    }

    /// Queues one host-produced message for the connection `id`.  The
    /// message is accepted exactly when the target is present, live and
    /// its channel has room; a dead or absent target drops it silently —
    /// sending to a dead connection is not an error.
    pub fn send_to(&mut self, id: u128, m: AppMessage) -> (queued: bool)
        requires
            old(self).wf(),
        ensures
            final(self).wf(),
            final(self).cap() == old(self).cap(),
            final(self).next_handle() == old(self).next_handle(),
            final(self)@ == send_model(old(self)@, id, m@),
            queued == (has_id(old(self)@, id) && old(self)@[index_of(old(self)@, id)].live && old(
                self,
            )@[index_of(old(self)@, id)].outbound.len() < old(self)@[index_of(old(self)@, id)].cap),
    {
        let found = self.find(id);
        if let Some(i) = found {
            let mut rec = self.records.remove(i);
            if !rec.live {
                self.records.insert(i, rec);
                proof {
                    assert(self@ =~= old(self)@);
                }
                return false;
            }
            let queued = rec.outbound.push(m);
            self.records.insert(i, rec);
            proof {
                assert(self@ =~= send_model(old(self)@, id, m@));
                assert forall|a: int, b: int| 0 <= a < b < self@.len() implies self@[a].id
                    != self@[b].id by {
                    assert(old(self)@[a].id != old(self)@[b].id);
                }
            }
            queued
        } else {
            false
        }
    }

    /// Hands the connection's socket writer its next message, oldest
    /// first; `None` when the channel is empty or the identity unknown.
    pub fn pop_outbound(&mut self, id: u128) -> (r: Option<AppMessage>)
        requires
            old(self).wf(),
        ensures
            final(self).wf(),
            final(self).cap() == old(self).cap(),
            final(self).next_handle() == old(self).next_handle(),
            match r {
                Some(m) => {
                    let i = index_of(old(self)@, id);
                    has_id(old(self)@, id) && old(self)@[i].outbound.len() > 0 && m@ == old(
                        self,
                    )@[i].outbound[0] && final(self)@ == old(self)@.update(
                        i,
                        (RecordView {
                            outbound: old(self)@[i].outbound.subrange(
                                1,
                                old(self)@[i].outbound.len() as int,
                            ),
                            ..old(self)@[i]
                        }),
                    )
                },
                None => final(self)@ == old(self)@ && (has_id(old(self)@, id) ==> old(
                    self,
                )@[index_of(old(self)@, id)].outbound.len() == 0),
            },
    {
        let found = self.find(id);
        if let Some(i) = found {
            let mut rec = self.records.remove(i);
            let m = rec.outbound.pop();
            self.records.insert(i, rec);
            proof {
                if m is None {
                    assert(self@ =~= old(self)@);
                } else {
                    let ii = index_of(old(self)@, id);
                    assert(self@ =~= old(self)@.update(
                        ii,
                        (RecordView {
                            outbound: old(self)@[ii].outbound.subrange(
                                1,
                                old(self)@[ii].outbound.len() as int,
                            ),
                            ..old(self)@[ii]
                        }),
                    ));
                }
                assert forall|a: int, b: int| 0 <= a < b < self@.len() implies self@[a].id
                    != self@[b].id by {
                    assert(old(self)@[a].id != old(self)@[b].id);
                }
            }
            m
        } else {
            None
        }
    }

    /// Phase one of the tick, before the host consumes events: tears down
    /// the handle of every dead record and removes it, gives every live
    /// record without a handle a fresh one, and reports exactly those
    /// creations and teardowns, in table order.  Afterwards every record
    /// standing is live and has a handle.
    pub fn reconcile(&mut self) -> (events: Vec<ConnectionEvent>)
        requires
            old(self).wf(),
            old(self).next_handle() + old(self)@.len() <= u64::MAX,
        ensures
            final(self).wf(),
            final(self).cap() == old(self).cap(),
            final(self)@ == reconcile_model(old(self)@, old(self).next_handle()),
            events@ == reconcile_events(old(self)@, old(self).next_handle()),
            final(self).next_handle() == old(self).next_handle() + new_handles(old(self)@),
            forall|k: int|
                0 <= k < final(self)@.len() ==> (#[trigger] final(self)@[k]).live
                    && final(self)@[k].handle is Some,
    {
        let ghost s0 = self@;
        let ghost n0 = self.next_handle;
        let mut taken: Vec<ConnectionRecord> = Vec::new();
        core::mem::swap(&mut taken, &mut self.records);
        let mut events: Vec<ConnectionEvent> = Vec::new();
        proof {
            lemma_new_handles_bounds(s0, 0);
            assert(self@ =~= Seq::<RecordView>::empty());
        }
        while taken.len() > 0
            invariant
                s0.len() - taken@.len() >= 0,
                recs_view(taken@) == s0.subrange(s0.len() - taken@.len(), s0.len() as int),
                forall|j: int| 0 <= j < taken@.len() ==> (#[trigger] taken@[j]).wf(),
                forall|j: int| 0 <= j < taken@.len() ==> (#[trigger] taken@[j])@.cap == self.cap,
                self.records_wf(),
                self.cap() == old(self).cap(),
                n0 + new_handles_from(s0, 0) <= u64::MAX,
                self.next_handle == n0 + new_handles_from(s0, 0) - new_handles_from(
                    s0,
                    s0.len() - taken@.len(),
                ),
                reconcile_records_from(s0, 0, n0) == self@ + reconcile_records_from(
                    s0,
                    s0.len() - taken@.len(),
                    self.next_handle,
                ),
                reconcile_events_from(s0, 0, n0) == events@ + reconcile_events_from(
                    s0,
                    s0.len() - taken@.len(),
                    self.next_handle,
                ),
            decreases taken@.len(),
        {
            let ghost i = s0.len() - taken@.len();
            let ghost ncur = self.next_handle;
            let ghost tk0 = taken@;
            proof {
                lemma_new_handles_bounds(s0, i + 1);
                assert(s0[i] == recs_view(taken@)[0]);
            }
            let mut rec = taken.remove(0);
            proof {
                assert forall|j: int| 0 <= j < taken@.len() implies recs_view(taken@)[j]
                    == s0.subrange(i + 1, s0.len() as int)[j] by {
                    assert(taken@[j] == tk0[j + 1]);
                    assert(recs_view(tk0)[j + 1] == s0.subrange(i, s0.len() as int)[j + 1]);
                }
                assert(recs_view(taken@) =~= s0.subrange(i + 1, s0.len() as int));
            }
            if !rec.live {
                match rec.handle {
                    Some(h) => {
                        events.push(ConnectionEvent::Lost { id: rec.id, handle: h });
                    },
                    None => {},
                }
                proof {
                    assert(reconcile_records_from(s0, i, ncur) == reconcile_records_from(
                        s0,
                        i + 1,
                        ncur,
                    ));
                    assert(reconcile_events_from(s0, 0, n0) =~= events@
                        + reconcile_events_from(s0, i + 1, ncur));
                }
            } else {
                if rec.handle.is_none() {
                    let h = self.next_handle;
                    self.next_handle = h + 1;
                    rec.handle = Some(h);
                    events.push(ConnectionEvent::Established { id: rec.id, handle: h });
                }
                self.records.push(rec);
                proof {
                    if s0[i].handle is None {
                        assert(reconcile_records_from(s0, i, ncur) == seq![
                            RecordView { handle: Some(ncur), ..s0[i] },
                        ] + reconcile_records_from(s0, i + 1, ((ncur + 1) as u64)));
                        assert(reconcile_records_from(s0, 0, n0) =~= self@
                            + reconcile_records_from(s0, i + 1, self.next_handle));
                        assert(reconcile_events_from(s0, 0, n0) =~= events@
                            + reconcile_events_from(s0, i + 1, self.next_handle));
                    } else {
                        assert(reconcile_records_from(s0, i, ncur) == seq![s0[i]]
                            + reconcile_records_from(s0, i + 1, ncur));
                        assert(reconcile_records_from(s0, 0, n0) =~= self@
                            + reconcile_records_from(s0, i + 1, self.next_handle));
                        assert(reconcile_events_from(s0, 0, n0) =~= events@
                            + reconcile_events_from(s0, i + 1, self.next_handle));
                    }
                }
            }
        }
        proof {
            assert(recs_view(taken@).len() == 0);
            assert(reconcile_records_from(s0, s0.len() as int, self.next_handle)
                == Seq::<RecordView>::empty());
            assert(self@ =~= reconcile_model(s0, n0));
            assert(events@ =~= reconcile_events(s0, n0));
            lemma_reconcile_keeps_live(s0, 0, n0);
            lemma_reconcile_ids_unique(s0, 0, n0);
        }
        events
    }

    /// Phase one's second half: empties every record's inbound buffer
    /// into one event stream, each message tagged with its connection,
    /// connections in table order and each connection's messages in the
    /// order they arrived.
    pub fn drain_inbound(&mut self) -> (out: Vec<ServerRecvPacket>)
        requires
            old(self).wf(),
        ensures
            final(self).wf(),
            final(self).cap() == old(self).cap(),
            final(self).next_handle() == old(self).next_handle(),
            packets_view(out@) == drained(old(self)@),
            final(self)@ == clear_inbound_model(old(self)@),
    {
        let ghost s0 = self@;
        let mut out: Vec<ServerRecvPacket> = Vec::new();
        let mut i: usize = 0;
        proof {
            assert(packets_view(out@) =~= Seq::<(u128, MessageView)>::empty());
        }
        while i < self.records.len()
            invariant
                i <= self.records@.len(),
                self.records@.len() == s0.len(),
                self.records_wf(),
                self.cap() == old(self).cap(),
                self.next_handle() == old(self).next_handle(),
                forall|j: int|
                    0 <= j < i ==> self@[j] == (RecordView {
                        inbound: Seq::<MessageView>::empty(),
                        ..s0[j]
                    }),
                forall|j: int| i <= j < s0.len() ==> self@[j] == s0[j],
                drained_from(s0, 0) == packets_view(out@) + drained_from(s0, i as int),
            decreases s0.len() - i,
        {
            let ghost base = out@;
            let ghost prev = self@;
            let ghost rs0 = self.records@;
            let mut rec = self.records.remove(i);
            let mut msgs: Vec<AppMessage> = Vec::new();
            core::mem::swap(&mut msgs, &mut rec.inbound);
            let id_val = rec.id;
            self.records.insert(i, rec);
            let ghost inb = s0[i as int].inbound;
            proof {
                assert(msgs_view(msgs@) =~= inb.subrange(
                    inb.len() - msgs@.len(),
                    inb.len() as int,
                ));
                assert forall|j: int| 0 <= j < self@.len() && j != i implies self@[j]
                    == prev[j] by {
                    assert(self.records@[j] == rs0[j]);
                }
                assert(self@[i as int] =~~= (RecordView {
                    inbound: Seq::<MessageView>::empty(),
                    ..s0[i as int]
                }));
                assert(tag_with(id_val, inb.subrange(0, 0)) =~= Seq::<(
                    u128,
                    MessageView,
                )>::empty());
                assert(packets_view(out@) =~= packets_view(base) + tag_with(
                    id_val,
                    inb.subrange(0, inb.len() - msgs@.len()),
                ));
            }
            while msgs.len() > 0
                invariant
                    id_val == s0[i as int].id,
                    0 <= i < s0.len(),
                    inb == s0[i as int].inbound,
                    msgs@.len() <= inb.len(),
                    msgs_view(msgs@) == inb.subrange(
                        inb.len() - msgs@.len(),
                        inb.len() as int,
                    ),
                    packets_view(out@) == packets_view(base) + tag_with(
                        id_val,
                        inb.subrange(0, inb.len() - msgs@.len()),
                    ),
                decreases msgs@.len(),
            {
                let ghost k = inb.len() - msgs@.len();
                let ghost msgs0 = msgs@;
                let ghost out0 = out@;
                proof {
                    assert(inb[k] == msgs_view(msgs@)[0]);
                }
                let m = msgs.remove(0);
                let ghost mv = m@;
                out.push(ServerRecvPacket { connection: id_val, msg: m });
                proof {
                    assert(mv == inb[k]);
                    assert(out@.len() == out0.len() + 1);
                    assert(out@[out0.len() as int]@ == (id_val, mv));
                    assert forall|j: int| 0 <= j < msgs@.len() implies msgs_view(msgs@)[j]
                        == inb.subrange(k + 1, inb.len() as int)[j] by {
                        assert(msgs@[j] == msgs0[j + 1]);
                        assert(msgs_view(msgs0)[j + 1] == inb.subrange(k, inb.len() as int)[j
                            + 1]);
                    }
                    assert(msgs_view(msgs@) =~= inb.subrange(k + 1, inb.len() as int));
                    assert(tag_with(id_val, inb.subrange(0, k + 1)) =~= tag_with(
                        id_val,
                        inb.subrange(0, k),
                    ).push((id_val, inb[k])));
                    assert(m@ == inb[k]);
                    assert(inb.subrange(0, k).len() == k);
                    assert(inb.subrange(0, k + 1).len() == k + 1);
                    assert(tag_with(id_val, inb.subrange(0, k)).len() == k);
                    assert(tag_with(id_val, inb.subrange(0, k + 1)).len() == k + 1);
                    assert(packets_view(out0).len() == out0.len());
                    assert(packets_view(base).len() == base.len());
                    assert(out0.len() == base.len() + k);
                    assert forall|j: int| 0 <= j < out@.len() implies packets_view(out@)[j]
                        == (packets_view(base) + tag_with(id_val, inb.subrange(0, k + 1)))[j] by {
                        if j < out0.len() {
                            assert(out@[j] == out0[j]);
                            assert(packets_view(out@)[j] == packets_view(out0)[j]);
                            assert(packets_view(out0)[j] == (packets_view(base) + tag_with(
                                id_val,
                                inb.subrange(0, k),
                            ))[j]);
                            if j >= base.len() {
                                let jj = j - base.len();
                                assert(tag_with(id_val, inb.subrange(0, k))[jj] == (
                                    id_val,
                                    inb.subrange(0, k)[jj],
                                ));
                                assert(inb.subrange(0, k)[jj] == inb[jj]);
                                assert(tag_with(id_val, inb.subrange(0, k + 1))[jj] == (
                                    id_val,
                                    inb.subrange(0, k + 1)[jj],
                                ));
                                assert(inb.subrange(0, k + 1)[jj] == inb[jj]);
                            }
                        } else {
                            assert(j == out0.len());
                            assert(packets_view(out@)[j] == (id_val, mv));
                            assert(inb.subrange(0, k + 1)[k] == inb[k]);
                            assert(tag_with(id_val, inb.subrange(0, k + 1))[k] == (
                                id_val,
                                inb[k],
                            ));
                        }
                    }
                    assert(packets_view(out@) =~= packets_view(base) + tag_with(
                        id_val,
                        inb.subrange(0, k + 1),
                    ));
                }
            }
            proof {
                assert(inb.subrange(0, inb.len() as int) =~= inb);
                assert(drained_from(s0, i as int) == tag_with(s0[i as int].id, inb)
                    + drained_from(s0, i + 1));
                assert(packets_view(out@) + drained_from(s0, i + 1) =~= (packets_view(base)
                    + tag_with(id_val, inb)) + drained_from(s0, i + 1));
                assert(drained_from(s0, 0) =~= packets_view(out@) + drained_from(s0, i + 1));
                assert forall|j: int| 0 <= j < i + 1 implies self@[j] == (RecordView {
                    inbound: Seq::<MessageView>::empty(),
                    ..s0[j]
                }) by {
                    if j < i {
                        assert(self@[j] == prev[j]);
                    } else {
                        assert(self@[i as int] =~~= (RecordView {
                            inbound: Seq::<MessageView>::empty(),
                            ..s0[i as int]
                        }));
                    }
                }
            }
            i += 1;
        }
        proof {
            assert(drained_from(s0, s0.len() as int) == Seq::<(u128, MessageView)>::empty());
            assert(packets_view(out@) =~= drained(s0));
            assert(self@ =~~= clear_inbound_model(s0));
            assert forall|a: int, b: int| 0 <= a < b < self@.len() implies self@[a].id
                != self@[b].id by {
                assert(self@[a].id == s0[a].id);
                assert(self@[b].id == s0[b].id);
            }
        }
        out
    }

    /// Phase two of the tick, after the host has produced its sends:
    /// offers each request in order to its target's outbound channel.  A
    /// request for a dead or absent identity is dropped silently; one for
    /// a full channel is dropped at that channel alone.
    pub fn dispatch(&mut self, sends: &Vec<ServerSendPacket>)
        requires
            old(self).wf(),
        ensures
            final(self).wf(),
            final(self).cap() == old(self).cap(),
            final(self).next_handle() == old(self).next_handle(),
            final(self)@ == dispatch_model(old(self)@, sends_view(sends@)),
    {
        let ghost s0 = self@;
        let ghost sv = sends_view(sends@);
        let mut k: usize = 0;
        while k < sends.len()
            invariant
                k <= sends@.len(),
                sv == sends_view(sends@),
                self.wf(),
                self.cap() == old(self).cap(),
                self.next_handle() == old(self).next_handle(),
                dispatch_from(s0, sv, 0) == dispatch_from(self@, sv, k as int),
            decreases sends@.len() - k,
        {
            let id = sends[k].connection_id;
            let m = duplicate(&sends[k].msg);
            proof {
                assert(sv[k as int] == (id, m@));
            }
            self.send_to(id, m);
            k += 1;
        }
        proof {
            assert(dispatch_from(self@, sv, sv.len() as int) == self@);
        }
    }

    /// The identities the host currently holds a handle for, in table
    /// order: the connections it may address sends to this tick.
    pub fn connections(&self) -> (r: Vec<Connection>)
        requires
            self.wf(),
        ensures
            connection_ids(r@) == handles_from(self@, 0),
    {
        let mut out: Vec<Connection> = Vec::new();
        let mut i: usize = 0;
        proof {
            assert(connection_ids(out@) =~= Seq::<u128>::empty());
        }
        while i < self.records.len()
            invariant
                i <= self.records@.len(),
                self.wf(),
                handles_from(self@, 0) == connection_ids(out@) + handles_from(self@, i as int),
            decreases self.records@.len() - i,
        {
            let present = self.records[i].handle.is_some();
            if present {
                let ghost prev = out@;
                out.push(Connection { id: self.records[i].id });
                proof {
                    assert(connection_ids(out@) =~= connection_ids(prev).push(
                        self@[i as int].id,
                    ));
                    assert(handles_from(self@, i as int) == seq![self@[i as int].id]
                        + handles_from(self@, i + 1));
                    assert(handles_from(self@, 0) =~= connection_ids(out@) + handles_from(
                        self@,
                        i + 1,
                    ));
                }
            }
            i += 1;
        }
        proof {
            assert(handles_from(self@, self@.len() as int) == Seq::<u128>::empty());
            assert(connection_ids(out@) =~= handles_from(self@, 0));
        }
        out
    }

    /// The read task's step for one received binary frame: decode it and
    /// append the message to its connection's buffer.  A malformed frame
    /// is discarded with its reason; the connection, and the rest of the
    /// table, stand untouched.
    pub fn handle_frame(&mut self, id: u128, bytes: &Vec<u8>) -> (r: Result<bool, DecodeError>)
        requires
            old(self).wf(),
        ensures
            final(self).wf(),
            final(self).cap() == old(self).cap(),
            final(self).next_handle() == old(self).next_handle(),
            match r {
                Ok(appended) => spec_decode(bytes@) is Some && final(self)@ == append_model(
                    old(self)@,
                    id,
                    spec_decode(bytes@)->0,
                ) && appended == has_id(old(self)@, id),
                Err(e) => spec_decode(bytes@) is None && e == spec_decode_err(bytes@)
                    && final(self)@ == old(self)@,
            },
    {
        match decode(bytes) {
            Ok(m) => Ok(self.append_inbound(id, m)),
            Err(e) => Err(e),
        }
    }

    /// The write task's step for connection `id`: its oldest queued
    /// message, already encoded as the payload of one binary frame, or
    /// `None` when nothing waits.
    pub fn next_outbound_frame(&mut self, id: u128) -> (r: Option<Vec<u8>>)
        requires
            old(self).wf(),
        ensures
            final(self).wf(),
            final(self).cap() == old(self).cap(),
            final(self).next_handle() == old(self).next_handle(),
            match r {
                Some(b) => {
                    let i = index_of(old(self)@, id);
                    has_id(old(self)@, id) && old(self)@[i].outbound.len() > 0 && b@ == spec_encode(
                        old(self)@[i].outbound[0],
                    ) && final(self)@ == old(self)@.update(
                        i,
                        (RecordView {
                            outbound: old(self)@[i].outbound.subrange(
                                1,
                                old(self)@[i].outbound.len() as int,
                            ),
                            ..old(self)@[i]
                        }),
                    )
                },
                None => final(self)@ == old(self)@ && (has_id(old(self)@, id) ==> old(
                    self,
                )@[index_of(old(self)@, id)].outbound.len() == 0),
            },
    {
        match self.pop_outbound(id) {
            Some(m) => Some(encode(&m)),
            None => None,
        }
    }
}

/// A verified copy of a message: the same value, owned anew.
pub fn duplicate(m: &AppMessage) -> (r: AppMessage)
    ensures
        r@ == m@,
{
    match m {
        AppMessage::Ping(n) => AppMessage::Ping(*n),
        AppMessage::Pong(n) => AppMessage::Pong(*n),
        AppMessage::Data(d) => {
            let mut copy: Vec<u8> = Vec::new();
            copy.extend_from_slice(d.as_slice());
            proof {
                assert(copy@ =~= d@);
            }
            AppMessage::Data(copy)
        },
    }
}

/// Under unique identities the survivors of reconciliation keep unique
/// identities: the table never grows a second record for an identity.
pub proof fn lemma_reconcile_ids_unique(s: Seq<RecordView>, i: int, n: u64)
    requires
        0 <= i <= s.len(),
        ids_unique(s),
    ensures
        ids_unique(reconcile_records_from(s, i, n)),
    decreases s.len() - i,
{
    if i < s.len() {
        lemma_reconcile_ids_unique(s, i + 1, n);
        lemma_reconcile_ids_unique(s, i + 1, ((n + 1) as u64));
        lemma_reconcile_keeps_live(s, i + 1, n);
        lemma_reconcile_keeps_live(s, i + 1, ((n + 1) as u64));
        if s[i].live {
            let res = reconcile_records_from(s, i, n);
            assert forall|a: int, b: int| 0 <= a < b < res.len() implies res[a].id != res[b].id by {
                if a == 0 {
                    let rest = res.subrange(1, res.len() as int);
                    assert(res[b] == rest[b - 1]);
                } else {
                    assert(res[a] == reconcile_records_from(s, i, n)[a]);
                }
            }
        }
    }
}

/// Sending to an identity absent from the table is a silent no-op: the
/// table stands exactly as it was, and nothing fails.
pub proof fn lemma_silent_drop_on_dead_target(s: Seq<RecordView>, id: u128, m: MessageView)
    requires
        !has_id(s, id),
    ensures
        send_model(s, id, m) == s,
        append_model(s, id, m) == s,
{
}

/// Dispatch touches nothing but outbound queues: the length of the table
/// and every record's identity, liveness, handle and inbound buffer stand.
pub proof fn lemma_dispatch_preserves_shape(
    s: Seq<RecordView>,
    sends: Seq<(u128, MessageView)>,
    k: int,
)
    requires
        0 <= k <= sends.len(),
    ensures
        dispatch_from(s, sends, k).len() == s.len(),
        forall|i: int|
            0 <= i < s.len() ==> {
                let r = #[trigger] dispatch_from(s, sends, k)[i];
                r.id == s[i].id && r.live == s[i].live && r.handle == s[i].handle && r.inbound
                    == s[i].inbound && r.cap == s[i].cap
            },
    decreases sends.len() - k,
{
    if k < sends.len() {
        lemma_dispatch_preserves_shape(send_model(s, sends[k].0, sends[k].1), sends, k + 1);
    }
}

/// FIFO per connection: three sends to the identity `id`, dispatched in
/// the order `a`, `b`, `c` while its live record has room for them, leave
/// its outbound queue holding exactly what it held before followed by
/// `a`, `b`, `c` — the socket writer, which takes from the front, hands
/// them to the peer in that order.  No other record is touched.
pub proof fn lemma_fifo_per_connection(
    s: Seq<RecordView>,
    id: u128,
    a: MessageView,
    b: MessageView,
    c: MessageView,
)
    requires
        ids_unique(s),
        has_id(s, id),
        s[index_of(s, id)].live,
        s[index_of(s, id)].outbound.len() + 3 <= s[index_of(s, id)].cap,
    ensures
        dispatch_model(s, seq![(id, a), (id, b), (id, c)])[index_of(s, id)].outbound == s[index_of(
            s,
            id,
        )].outbound + seq![a, b, c],
        forall|j: int|
            0 <= j < s.len() && j != index_of(s, id) ==> dispatch_model(
                s,
                seq![(id, a), (id, b), (id, c)],
            )[j] == s[j],
{
    let sends = seq![(id, a), (id, b), (id, c)];
    let i = index_of(s, id);
    let s1 = send_model(s, id, a);
    assert forall|x: int, y: int| 0 <= x < y < s1.len() implies s1[x].id != s1[y].id by {
        assert(s[x].id != s[y].id);
    }
    lemma_index_of_unique(s1, id, i);
    let s2 = send_model(s1, id, b);
    assert forall|x: int, y: int| 0 <= x < y < s2.len() implies s2[x].id != s2[y].id by {
        assert(s1[x].id != s1[y].id);
    }
    lemma_index_of_unique(s2, id, i);
    let s3 = send_model(s2, id, c);
    assert(dispatch_from(s, sends, 0) == dispatch_from(s1, sends, 1));
    assert(dispatch_from(s1, sends, 1) == dispatch_from(s2, sends, 2));
    assert(dispatch_from(s2, sends, 2) == dispatch_from(s3, sends, 3));
    assert(dispatch_from(s3, sends, 3) == s3);
    assert(s3[i].outbound =~= s[i].outbound + seq![a, b, c]);
}

/// Liveness is monotone: no operation of the registry raises a fallen
/// liveness flag.  Closing, appending, sending and draining leave every
/// other record's flag where it stood and never raise the target's; and
/// every record reconciliation lets stand is live — a record observed
/// dead is torn down, and its identity never reappears.
pub proof fn lemma_liveness_monotone(
    s: Seq<RecordView>,
    id: u128,
    m: MessageView,
    sends: Seq<(u128, MessageView)>,
    i: int,
    n: u64,
)
    requires
        0 <= i < s.len(),
    ensures
        !s[i].live ==> !close_model(s, id)[i].live,
        append_model(s, id, m)[i].live == s[i].live,
        send_model(s, id, m)[i].live == s[i].live,
        clear_inbound_model(s)[i].live == s[i].live,
        dispatch_model(s, sends)[i].live == s[i].live,
        forall|k: int|
            0 <= k < reconcile_model(s, n).len() ==> (#[trigger] reconcile_model(s, n)[k]).live,
{
    lemma_dispatch_preserves_shape(s, sends, 0);
    lemma_reconcile_keeps_live(s, 0, n);
}

} // verus!
