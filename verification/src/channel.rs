//! The bounded outbound channel of one connection.
//!
//! It decouples the synchronous per-tick send from the asynchronous socket
//! writer: the poll bridge pushes at the tick boundary and never blocks —
//! a push onto a full channel drops the new message — while the writer
//! pops from the front, so messages leave in exactly the order they were
//! accepted.

use crate::codec::AppMessage;
use crate::codec::MessageView;
use vstd::prelude::*;

verus! {

/// What one accepted push does to the queue: appends if there is room,
/// drops the new message otherwise.
pub open spec fn push_model(q: Seq<MessageView>, cap: nat, m: MessageView) -> Seq<MessageView> {
    if q.len() < cap {
        q.push(m)
    } else {
        q
    }
}

/// A bounded FIFO queue of messages awaiting the socket writer.
pub struct OutboundChannel {
    queue: Vec<AppMessage>,
    cap: usize,
}

impl View for OutboundChannel {
    type V = Seq<MessageView>;

    closed spec fn view(&self) -> Seq<MessageView> {
        self.queue@.map_values(|m: AppMessage| m@)
    }
}

impl OutboundChannel {
    /// The fixed capacity the channel was created with.
    pub closed spec fn cap(&self) -> nat {
        self.cap as nat
    }

    /// The queue never holds more than its capacity.
    pub closed spec fn wf(&self) -> bool {
        self.queue@.len() <= self.cap
    }

    /// An empty channel with room for `cap` messages.
    pub fn new(cap: usize) -> (r: OutboundChannel)
        requires
            cap >= 1,
        ensures
            r.wf(),
            r@ == Seq::<MessageView>::empty(),
            r.cap() == cap,
    {
        let r = OutboundChannel { queue: Vec::new(), cap };
        proof {
            assert(r@ =~= Seq::<MessageView>::empty());
        }
        r
    }

    /// Offers a message to the channel.  It is accepted exactly when there
    /// is room; a full channel drops the new message so the poll never
    /// stalls the host loop.
    pub fn push(&mut self, m: AppMessage) -> (accepted: bool)
        requires
            old(self).wf(),
        ensures
            final(self).wf(),
            final(self).cap() == old(self).cap(),
            accepted == (old(self)@.len() < old(self).cap()),
            final(self)@ == push_model(old(self)@, old(self).cap(), m@),
    {
        if self.queue.len() < self.cap {
            self.queue.push(m);
            proof {
                assert(self@ =~= old(self)@.push(m@));
            }
            true
        } else {
            false
        }
    }

    /// Takes the oldest queued message, if any.
    pub fn pop(&mut self) -> (r: Option<AppMessage>)
        requires
            old(self).wf(),
        ensures
            final(self).wf(),
            final(self).cap() == old(self).cap(),
            match r {
                Some(m) => old(self)@.len() > 0 && m@ == old(self)@[0] && final(self)@ == old(
                    self,
                )@.subrange(1, old(self)@.len() as int),
                None => old(self)@.len() == 0 && final(self)@ == old(self)@,
            },
    {
        if self.queue.len() == 0 {
            None
        } else {
            let m = self.queue.remove(0);
            proof {
                assert(self@ =~= old(self)@.subrange(1, old(self)@.len() as int));
            }
            Some(m)
        }
    }

    /// How many messages are waiting.
    pub fn len(&self) -> (r: usize)
        ensures
            r == self@.len(),
    {
        self.queue.len()
    }

    /// Discards everything queued, keeping the capacity: the queue of a
    /// socket that no longer exists.
    pub fn clear(&mut self)
        requires
            old(self).wf(),
        ensures
            final(self).wf(),
            final(self).cap() == old(self).cap(),
            final(self)@ == Seq::<MessageView>::empty(),
    {
        self.queue.clear();
        proof {
            assert(self@ =~= Seq::<MessageView>::empty());
        }
    }
}

/// FIFO order: messages accepted while the channel has room leave behind
/// everything already queued, in exactly the order they were offered.
pub proof fn lemma_fifo(q: Seq<MessageView>, cap: nat, a: MessageView, b: MessageView, c: MessageView)
    requires
        q.len() + 3 <= cap,
    ensures
        push_model(push_model(push_model(q, cap, a), cap, b), cap, c) == q + seq![a, b, c],
{
    assert(push_model(push_model(push_model(q, cap, a), cap, b), cap, c) =~= q + seq![a, b, c]);
}

} // verus!
