//! The client connection state machine.
//!
//! One outbound WebSocket connection, polled once per tick.  The socket
//! itself lives outside: each tick the host asks `poll_connect` whether a
//! new socket must be opened (because none exists or the configured
//! endpoint changed), feeds every event the socket produced through
//! `on_socket_event`, drains the inbound buffer, and hands queued sends to
//! the writer frame by frame.  Connectivity is cleared synchronously on
//! any disconnection, so the host observes it at the very next poll.

use crate::channel::push_model;
use crate::channel::OutboundChannel;
use crate::codec::decode;
use crate::codec::encode;
use crate::codec::msgs_view;
use crate::codec::spec_decode;
use crate::codec::spec_decode_err;
use crate::codec::spec_encode;
use crate::codec::AppMessage;
use crate::codec::DecodeError;
use crate::codec::MessageView;
use vstd::prelude::*;

verus! {

/// Client endpoint configuration: the WebSocket URL, as bytes.
pub struct ClientSettings {
    pub url: Vec<u8>,
}

/// Host-visible connectivity, updated once per tick.
pub struct ClientStatus {
    pub is_connected: bool,
}

impl Default for ClientStatus {
    /// A client starts out disconnected.
    fn default() -> (r: ClientStatus)
        ensures
            !r.is_connected,
    {
        ClientStatus { is_connected: false }
    }
}

/// A host-produced request to send `msg` to the server.
pub struct ClientSendPacket {
    pub msg: AppMessage,
}

impl View for ClientSendPacket {
    type V = MessageView;

    open spec fn view(&self) -> MessageView {
        self.msg@
    }
}

/// One message received from the server.
pub struct ClientRecvPacket {
    pub msg: AppMessage,
}

impl View for ClientRecvPacket {
    type V = MessageView;

    open spec fn view(&self) -> MessageView {
        self.msg@
    }
}

/// The view of a received-packet sequence, in order.
pub open spec fn recv_view(v: Seq<ClientRecvPacket>) -> Seq<MessageView> {
    v.map_values(|p: ClientRecvPacket| p@)
}

/// What the socket reported since the last poll, as the transport layer
/// hands it over: the open acknowledgment, one binary frame, a frame of
/// another kind (text or control, ignored), a transport error, or the
/// remote close.
pub enum SocketEvent {
    Opened,
    Frame(Vec<u8>),
    Other,
    Failed,
    Closed,
}

/// The mathematical value of the client state.
#[verifier::ext_equal]
pub struct ClientView {
    /// The endpoint the current socket was opened towards; `None` while
    /// no socket exists.
    pub socket_url: Option<Seq<u8>>,
    /// True only between the transport's open acknowledgment and the next
    /// disconnection.
    pub connected: bool,
    /// Decoded messages awaiting the next inbound drain, oldest first.
    pub inbound: Seq<MessageView>,
    /// Messages awaiting the socket writer, oldest first.
    pub outbound: Seq<MessageView>,
    /// Capacity of the outbound channel.
    pub cap: nat,
}

/// What one poll of the connector does: an unchanged endpoint with a
/// standing socket is kept; otherwise the old socket is abandoned, the
/// connectivity flag cleared before any reconnect, the outbound queue of
/// the dead socket discarded, and a connect to the configured endpoint
/// requested.
pub open spec fn poll_model(c: ClientView, url: Seq<u8>) -> ClientView {
    if c.socket_url == Some(url) {
        c
    } else {
        ClientView {
            socket_url: Some(url),
            connected: false,
            outbound: Seq::<MessageView>::empty(),
            ..c
        }
    }
}

/// What one host send does: queued while connected (dropped when the
/// channel is full), silently dropped while disconnected.
pub open spec fn client_send_model(c: ClientView, m: MessageView) -> ClientView {
    if c.connected {
        ClientView { outbound: push_model(c.outbound, c.cap, m), ..c }
    } else {
        c
    }
}

/// The single client connection, polled once per tick.
pub struct Client {
    socket_url: Option<Vec<u8>>,
    connected: bool,
    inbound: Vec<AppMessage>,
    outbound: OutboundChannel,
}

impl View for Client {
    type V = ClientView;

    closed spec fn view(&self) -> ClientView {
        ClientView {
            socket_url: match self.socket_url {
                Some(u) => Some(u@),
                None => None,
            },
            connected: self.connected,
            inbound: msgs_view(self.inbound@),
            outbound: self.outbound@,
            cap: self.outbound.cap(),
        }
    }
}

impl Client {
    pub closed spec fn wf(&self) -> bool {
        self.outbound.wf()
    }

    /// The capacity the outbound channel was created with.
    pub open spec fn cap(&self) -> nat {
        self@.cap
    }

    /// A fresh client: no socket, disconnected, empty buffers.
    pub fn new(cap: usize) -> (r: Client)
        requires
            cap >= 1,
        ensures
            r.wf(),
            r@ == (ClientView {
                socket_url: None,
                connected: false,
                inbound: Seq::<MessageView>::empty(),
                outbound: Seq::<MessageView>::empty(),
                cap: cap as nat,
            }),
    {
        let r = Client {
            socket_url: None,
            connected: false,
            inbound: Vec::new(),
            outbound: OutboundChannel::new(cap),
        };
        proof {
            assert(r@ =~~= (ClientView {
                socket_url: None,
                connected: false,
                inbound: Seq::<MessageView>::empty(),
                outbound: Seq::<MessageView>::empty(),
                cap: cap as nat,
            }));
        }
        r
    }

    /// The connector's per-tick decision.  `None`: the standing socket
    /// serves the configured endpoint, keep it.  `Some(url)`: open a new
    /// socket to `url` — because none exists or the configuration
    /// changed; any old socket is abandoned and the connectivity flag is
    /// cleared before the new connect, so a configuration change is
    /// observed as a disconnection at this very poll.
    pub fn poll_connect(&mut self, settings: &ClientSettings) -> (r: Option<Vec<u8>>)
        requires
            old(self).wf(),
        ensures
            final(self).wf(),
            final(self)@ == poll_model(old(self)@, settings.url@),
            old(self)@.socket_url == Some(settings.url@) ==> r is None,
            old(self)@.socket_url != Some(settings.url@) ==> (r matches Some(u) && u@
                == settings.url@),
    {
        let same = match &self.socket_url {
            Some(u) => bytes_eq(u, &settings.url),
            None => false,
        };
        if same {
            None
        } else {
            self.connected = false;
            self.outbound.clear();
            self.socket_url = Some(copy_bytes(&settings.url));
            proof {
                assert(self@ =~~= poll_model(old(self)@, settings.url@));
            }
            Some(copy_bytes(&settings.url))
        }
    }

    /// Applies one socket report.  The open acknowledgment raises the
    /// connectivity flag; a binary frame is decoded and buffered, or
    /// discarded alone with its reason; other frames are ignored; an
    /// error or the remote close clears the flag and abandons the socket,
    /// so the next poll reconnects.
    pub fn on_socket_event(&mut self, ev: SocketEvent) -> (r: Option<DecodeError>)
        requires
            old(self).wf(),
            old(self)@.socket_url is Some,
        ensures
            final(self).wf(),
            final(self).cap() == old(self).cap(),
            ev == SocketEvent::Opened ==> r is None && final(self)@ == (ClientView {
                connected: true,
                ..old(self)@
            }),
            ev == SocketEvent::Other ==> r is None && final(self)@ == old(self)@,
            ev == SocketEvent::Failed || ev == SocketEvent::Closed ==> r is None && final(self)@
                == (ClientView { socket_url: None, connected: false, ..old(self)@ }),
            ev matches SocketEvent::Frame(b) ==> {
                &&& spec_decode(b@) matches Some(m) ==> r is None && final(self)@ == (ClientView {
                    inbound: old(self)@.inbound.push(m),
                    ..old(self)@
                })
                &&& spec_decode(b@) is None ==> r == Some(spec_decode_err(b@)) && final(self)@
                    == old(self)@
            },
    {
        match ev {
            SocketEvent::Opened => {
                self.connected = true;
                proof {
                    assert(self@ =~~= (ClientView { connected: true, ..old(self)@ }));
                }
                None
            },
            SocketEvent::Other => None,
            SocketEvent::Failed | SocketEvent::Closed => {
                self.connected = false;
                self.socket_url = None;
                proof {
                    assert(self@ =~~= (ClientView {
                        socket_url: None,
                        connected: false,
                        ..old(self)@
                    }));
                }
                None
            },
            SocketEvent::Frame(b) => {
                match decode(&b) {
                    Ok(m) => {
                        let ghost mv = m@;
                        self.inbound.push(m);
                        proof {
                            assert(self@ =~~= (ClientView {
                                inbound: old(self)@.inbound.push(mv),
                                ..old(self)@
                            }));
                        }
                        None
                    },
                    Err(e) => Some(e),
                }
            },
        }
    }

    /// Empties the inbound buffer into host-visible packets, oldest
    /// first.
    pub fn drain_inbound(&mut self) -> (out: Vec<ClientRecvPacket>)
        requires
            old(self).wf(),
        ensures
            final(self).wf(),
            recv_view(out@) == old(self)@.inbound,
            final(self)@ == (ClientView { inbound: Seq::<MessageView>::empty(), ..old(self)@ }),
    {
        let ghost inb = self@.inbound;
        let mut msgs: Vec<AppMessage> = Vec::new();
        core::mem::swap(&mut msgs, &mut self.inbound);
        let mut out: Vec<ClientRecvPacket> = Vec::new();
        proof {
            assert(msgs_view(msgs@) =~= inb);
            assert(self@ =~~= (ClientView { inbound: Seq::<MessageView>::empty(), ..old(self)@ }));
            assert(recv_view(out@) =~= inb.subrange(0, 0));
        }
        while msgs.len() > 0
            invariant
                msgs@.len() <= inb.len(),
                msgs_view(msgs@) == inb.subrange(inb.len() - msgs@.len(), inb.len() as int),
                recv_view(out@) == inb.subrange(0, inb.len() - msgs@.len()),
            decreases msgs@.len(),
        {
            let ghost k = inb.len() - msgs@.len();
            let ghost msgs0 = msgs@;
            let ghost out0 = out@;
            proof {
                assert(inb[k] == msgs_view(msgs@)[0]);
            }
            let m = msgs.remove(0);
            let ghost mv = m@;
            out.push(ClientRecvPacket { msg: m });
            proof {
                assert(mv == inb[k]);
                assert forall|j: int| 0 <= j < msgs@.len() implies msgs_view(msgs@)[j]
                    == inb.subrange(k + 1, inb.len() as int)[j] by {
                    assert(msgs@[j] == msgs0[j + 1]);
                    assert(msgs_view(msgs0)[j + 1] == inb.subrange(k, inb.len() as int)[j + 1]);
                }
                assert(msgs_view(msgs@) =~= inb.subrange(k + 1, inb.len() as int));
                assert(recv_view(out0).len() == out0.len());
                assert(out@[out0.len() as int]@ == mv);
                assert forall|j: int| 0 <= j < out@.len() implies recv_view(out@)[j]
                    == inb.subrange(0, k + 1)[j] by {
                    if j < out0.len() {
                        assert(out@[j] == out0[j]);
                        assert(recv_view(out@)[j] == recv_view(out0)[j]);
                        assert(recv_view(out0)[j] == inb.subrange(0, k)[j]);
                        assert(inb.subrange(0, k)[j] == inb[j]);
                        assert(inb.subrange(0, k + 1)[j] == inb[j]);
                    } else {
                        assert(j == k);
                        assert(recv_view(out@)[j] == mv);
                        assert(inb.subrange(0, k + 1)[k] == inb[k]);
                    }
                }
                assert(recv_view(out@) =~= inb.subrange(0, k + 1));
            }
        }
        proof {
            assert(recv_view(out@) =~= inb);
        }
        out
    }

    /// Queues one host-produced send.  It is accepted exactly while
    /// connected and the channel has room; otherwise it is dropped
    /// silently — sending while disconnected is not an error.
    pub fn send(&mut self, p: ClientSendPacket) -> (queued: bool)
        requires
            old(self).wf(),
        ensures
            final(self).wf(),
            final(self)@ == client_send_model(old(self)@, p@),
            queued == (old(self)@.connected && old(self)@.outbound.len() < old(self)@.cap),
    {
        if self.connected {
            let queued = self.outbound.push(p.msg);
            proof {
                assert(self@ =~~= client_send_model(old(self)@, p@));
            }
            queued
        } else {
            false
        }
    }

    /// The writer's next frame: the oldest queued message, encoded as one
    /// binary frame, or `None` when nothing waits.
    pub fn next_outbound_frame(&mut self) -> (r: Option<Vec<u8>>)
        requires
            old(self).wf(),
        ensures
            final(self).wf(),
            match r {
                Some(b) => old(self)@.outbound.len() > 0 && b@ == spec_encode(
                    old(self)@.outbound[0],
                ) && final(self)@ == (ClientView {
                    outbound: old(self)@.outbound.subrange(1, old(self)@.outbound.len() as int),
                    ..old(self)@
                }),
                None => old(self)@.outbound.len() == 0 && final(self)@ == old(self)@,
            },
    {
        match self.outbound.pop() {
            Some(m) => {
                proof {
                    assert(self@ =~~= (ClientView {
                        outbound: old(self)@.outbound.subrange(
                            1,
                            old(self)@.outbound.len() as int,
                        ),
                        ..old(self)@
                    }));
                }
                Some(encode(&m))
            },
            None => None,
        }
    }

    /// Whether a socket currently stands (opened or still negotiating):
    /// socket events are only meaningful while one does.
    pub fn has_socket(&self) -> (r: bool)
        ensures
            r == (self@.socket_url is Some),
    {
        self.socket_url.is_some()
    }

    /// The connectivity flag as of the last poll.
    pub fn connectivity_status(&self) -> (r: bool)
        ensures
            r == self@.connected,
    {
        self.connected
    }
}

/// Whether two byte strings hold the same bytes.
pub fn bytes_eq(a: &Vec<u8>, b: &Vec<u8>) -> (r: bool)
    ensures
        r == (a@ == b@),
{
    if a.len() != b.len() {
        return false;
    }
    let mut i: usize = 0;
    while i < a.len()
        invariant
            i <= a@.len(),
            a@.len() == b@.len(),
            forall|j: int| 0 <= j < i ==> a@[j] == b@[j],
        decreases a@.len() - i,
    {
        if a[i] != b[i] {
            return false;
        }
        i += 1;
    }
    proof {
        assert(a@ =~= b@);
    }
    true
}

/// A fresh byte string holding the same bytes.
pub fn copy_bytes(v: &Vec<u8>) -> (r: Vec<u8>)
    ensures
        r@ == v@,
{
    let mut r: Vec<u8> = Vec::new();
    r.extend_from_slice(v.as_slice());
    proof {
        assert(r@ =~= v@);
    }
    r
}

/// Changing the endpoint configuration of a connected client: at the very
/// next poll the connectivity flag reads false, and a connect attempt to
/// the newly configured endpoint is made.
pub proof fn lemma_reconnect_on_config_change(c: ClientView, url: Seq<u8>)
    requires
        c.connected,
        c.socket_url != Some(url),
    ensures
        !poll_model(c, url).connected,
        poll_model(c, url).socket_url == Some(url),
{
}

} // verus!
