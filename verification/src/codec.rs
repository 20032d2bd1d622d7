//! Framing of application messages as binary WebSocket payloads.
//!
//! One WebSocket binary frame carries exactly one encoded message, so the
//! encoding needs no internal length prefix: a one-byte tag picks the
//! variant and the rest of the frame is the payload.  Encoding is total and
//! deterministic; decoding accepts exactly the images of `spec_encode` and
//! reports why any other frame is rejected.

use vstd::bytes::lemma_auto_spec_u64_to_from_le_bytes;
use vstd::bytes::spec_u64_from_le_bytes;
use vstd::bytes::spec_u64_to_le_bytes;
use vstd::bytes::u64_from_le_bytes;
use vstd::bytes::u64_to_le_bytes;
use vstd::prelude::*;
use vstd::slice::slice_subrange;

verus! {

/// Frame tag of a `Ping` message.
pub const TAG_PING: u8 = 1;

/// Frame tag of a `Pong` message.
pub const TAG_PONG: u8 = 2;

/// Frame tag of a `Data` message.
pub const TAG_DATA: u8 = 3;

/// A typed application message carried over one WebSocket binary frame.
///
/// `Ping` and `Pong` carry a round-trip marker; `Data` carries an opaque
/// payload, under which a host can tunnel any encoding of its own.
#[derive(Clone, Debug, PartialEq, Eq)]
pub enum AppMessage {
    Ping(u64),
    Pong(u64),
    Data(Vec<u8>),
}

/// The mathematical value of an [`AppMessage`].
pub enum MessageView {
    Ping(u64),
    Pong(u64),
    Data(Seq<u8>),
}

impl View for AppMessage {
    type V = MessageView;

    open spec fn view(&self) -> MessageView {
        match self {
            AppMessage::Ping(n) => MessageView::Ping(*n),
            AppMessage::Pong(n) => MessageView::Pong(*n),
            AppMessage::Data(d) => MessageView::Data(d@),
        }
    }
}

/// The view of a message sequence, in order.
pub open spec fn msgs_view(v: Seq<AppMessage>) -> Seq<MessageView> {
    v.map_values(|m: AppMessage| m@)
}

/// Why a frame was rejected by [`decode`].
#[derive(Clone, Copy, Debug, PartialEq, Eq, Structural)]
pub enum DecodeError {
    /// The frame holds no bytes at all.
    EmptyFrame,
    /// The leading byte is not one of the defined tags.
    UnknownTag,
    /// A `Ping`/`Pong` frame whose length is not exactly nine bytes.
    WrongLength,
}

/// The frame that encodes a message: its tag byte, then the payload.
pub open spec fn spec_encode(m: MessageView) -> Seq<u8> {
    match m {
        MessageView::Ping(n) => seq![TAG_PING] + spec_u64_to_le_bytes(n),
        MessageView::Pong(n) => seq![TAG_PONG] + spec_u64_to_le_bytes(n),
        MessageView::Data(d) => seq![TAG_DATA] + d,
    }
}

/// The message a frame decodes to, or `None` on a malformed frame.
pub open spec fn spec_decode(b: Seq<u8>) -> Option<MessageView> {
    if b.len() == 0 {
        None
    } else if b[0] == TAG_PING {
        if b.len() == 9 {
            Some(MessageView::Ping(spec_u64_from_le_bytes(b.subrange(1, 9))))
        } else {
            None
        }
    } else if b[0] == TAG_PONG {
        if b.len() == 9 {
            Some(MessageView::Pong(spec_u64_from_le_bytes(b.subrange(1, 9))))
        } else {
            None
        }
    } else if b[0] == TAG_DATA {
        Some(MessageView::Data(b.subrange(1, b.len() as int)))
    } else {
        None
    }
}

/// The error reported for a frame that does not decode.
pub open spec fn spec_decode_err(b: Seq<u8>) -> DecodeError {
    if b.len() == 0 {
        DecodeError::EmptyFrame
    } else if b[0] == TAG_PING || b[0] == TAG_PONG {
        DecodeError::WrongLength
    } else {
        DecodeError::UnknownTag
    }
}

/// Encodes a message as the byte payload of one binary frame.
pub fn encode(m: &AppMessage) -> (r: Vec<u8>)
    ensures
        r@ == spec_encode(m@),
{
    match m {
        AppMessage::Ping(n) => {
            let mut out: Vec<u8> = Vec::new();
            out.push(TAG_PING);
            let mut tail = u64_to_le_bytes(*n);
            out.append(&mut tail);
            proof {
                assert(out@ =~= spec_encode(m@));
            }
            out
        },
        AppMessage::Pong(n) => {
            let mut out: Vec<u8> = Vec::new();
            out.push(TAG_PONG);
            let mut tail = u64_to_le_bytes(*n);
            out.append(&mut tail);
            proof {
                assert(out@ =~= spec_encode(m@));
            }
            out
        },
        AppMessage::Data(d) => {
            let mut out: Vec<u8> = Vec::new();
            out.push(TAG_DATA);
            let mut i: usize = 0;
            while i < d.len()
                invariant
                    i <= d.len(),
                    out@ == seq![TAG_DATA] + d@.subrange(0, i as int),
                decreases d.len() - i,
            {
                out.push(d[i]);
                proof {
                    assert(seq![TAG_DATA] + d@.subrange(0, i as int) + seq![d@[i as int]] =~= seq![
                        TAG_DATA,
                    ] + d@.subrange(0, i + 1));
                }
                i += 1;
            }
            proof {
                assert(d@.subrange(0, d@.len() as int) =~= d@);
            }
            out
        },
    }
}

/// Decodes one frame back into a message; a malformed frame is rejected
/// with the reason, and harms nothing else.
pub fn decode(bytes: &Vec<u8>) -> (r: Result<AppMessage, DecodeError>)
    ensures
        (r is Ok) == (spec_decode(bytes@) is Some),
        r matches Ok(m) ==> spec_decode(bytes@) == Some(m@),
        r matches Err(e) ==> e == spec_decode_err(bytes@),
{
    if bytes.len() == 0 {
        return Err(DecodeError::EmptyFrame);
    }
    let tag = bytes[0];
    if tag == TAG_PING || tag == TAG_PONG {
        if bytes.len() != 9 {
            return Err(DecodeError::WrongLength);
        }
        let payload = slice_subrange(bytes.as_slice(), 1, 9);
        let n = u64_from_le_bytes(payload);
        if tag == TAG_PING {
            Ok(AppMessage::Ping(n))
        } else {
            Ok(AppMessage::Pong(n))
        }
    } else if tag == TAG_DATA {
        let mut d: Vec<u8> = Vec::new();
        let mut i: usize = 1;
        while i < bytes.len()
            invariant
                1 <= i <= bytes@.len(),
                d@ == bytes@.subrange(1, i as int),
            decreases bytes@.len() - i,
        {
            d.push(bytes[i]);
            proof {
                assert(bytes@.subrange(1, i as int) + seq![bytes@[i as int]] =~= bytes@.subrange(
                    1,
                    i + 1,
                ));
            }
            i += 1;
        }
        Ok(AppMessage::Data(d))
    } else {
        Err(DecodeError::UnknownTag)
    }
}

/// Round trip: every message decodes back from its own encoding.
pub proof fn lemma_round_trip(m: MessageView)
    ensures
        spec_decode(spec_encode(m)) == Some(m),
{
    lemma_auto_spec_u64_to_from_le_bytes();
    match m {
        MessageView::Ping(n) => {
            assert(spec_encode(m).subrange(1, 9) =~= spec_u64_to_le_bytes(n));
        },
        MessageView::Pong(n) => {
            assert(spec_encode(m).subrange(1, 9) =~= spec_u64_to_le_bytes(n));
        },
        MessageView::Data(d) => {
            assert(spec_encode(m).subrange(1, spec_encode(m).len() as int) =~= d);
        },
    }
}

/// The encoding is byte-for-byte reversible: a frame that decodes at all is
/// exactly the encoding of the message it decodes to.
pub proof fn lemma_decode_faithful(b: Seq<u8>, m: MessageView)
    requires
        spec_decode(b) == Some(m),
    ensures
        spec_encode(m) == b,
{
    lemma_auto_spec_u64_to_from_le_bytes();
    if b[0] == TAG_PING || b[0] == TAG_PONG {
        assert(spec_u64_to_le_bytes(spec_u64_from_le_bytes(b.subrange(1, 9))) =~= b.subrange(1, 9));
        assert(spec_encode(m) =~= b);
    } else {
        assert(spec_encode(m) =~= b);
    }
}

} // verus!
