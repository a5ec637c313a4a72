//! Client-side queues around a message-oriented socket.
//!
//! The inbox collects decoded application messages as frames arrive; a
//! malformed frame is dropped and the inbox is untouched, so later frames
//! still land. The outbox queues messages while the socket is still
//! opening and flushes them in arrival order the moment it opens; once
//! open, each message is framed for the wire at once.

use vstd::prelude::*;

use crate::codec::{
    client_message_bytes, decode_server_message, encode_client_message, le_u32_val,
};
use crate::protocol::{ClientMessage, ServerMessage};

verus! {

/// Application messages received and decoded, in arrival order.
pub struct Inbox {
    queue: Vec<ServerMessage>,
}

impl Inbox {
    /// The messages waiting to be consumed, oldest first.
    pub closed spec fn queue(self) -> Seq<ServerMessage> {
        self.queue@
    }

    /// An empty inbox.
    pub fn new() -> (r: Inbox)
        ensures
            r.queue() == Seq::<ServerMessage>::empty(),
    {
        let r = Inbox { queue: Vec::new() };
        proof {
            assert(r.queue() =~= Seq::<ServerMessage>::empty());
        }
        r
    }

    /// One frame arrived: decode it and keep the message, or drop the
    /// frame unread. A decode failure leaves the inbox exactly as it was,
    /// so the frames after it are still processed.
    pub fn on_message(&mut self, bytes: &Vec<u8>) -> (r: bool)
        ensures
            r <==> bytes@.len() >= 4 && le_u32_val(bytes@) == 0,
            r ==> final(self).queue() == old(self).queue().push(ServerMessage::HelloFromServer),
            !r ==> final(self).queue() == old(self).queue(),
    {
        match decode_server_message(bytes) {
            Ok(msg) => {
                self.queue.push(msg);
                true
            },
            Err(_) => false,
        }
    }

    /// Take the oldest waiting message, if any.
    pub fn pop(&mut self) -> (r: Option<ServerMessage>)
        ensures
            old(self).queue().len() == 0 ==> r is None && final(self).queue() == old(
                self,
            ).queue(),
            old(self).queue().len() > 0 ==> r == Some(old(self).queue()[0]) && final(self).queue()
                == old(self).queue().drop_first(),
    {
        if self.queue.len() == 0 {
            None
        } else {
            let m = self.queue.remove(0);
            proof {
                assert(self.queue() =~= old(self).queue().drop_first());
            }
            Some(m)
        }
    }

    /// How many messages wait.
    pub fn len(&self) -> (r: usize)
        ensures
            r == self.queue().len(),
    {
        self.queue.len()
    }
}

/// Application messages on their way to the socket.
pub struct Outbox {
    open: bool,
    queue: Vec<ClientMessage>,
}

impl Outbox {
    /// The messages still waiting for the socket to open, oldest first.
    pub closed spec fn queue(self) -> Seq<ClientMessage> {
        self.queue@
    }

    /// Whether the socket has opened.
    pub closed spec fn opened(self) -> bool {
        self.open
    }

    /// An outbox for a socket that is still opening.
    pub fn new() -> (r: Outbox)
        ensures
            r.queue() == Seq::<ClientMessage>::empty(),
            !r.opened(),
    {
        let r = Outbox { open: false, queue: Vec::new() };
        proof {
            assert(r.queue() =~= Seq::<ClientMessage>::empty());
        }
        r
    }

    /// The socket opened: flush everything queued, in arrival order, each
    /// message framed for the wire.
    pub fn on_open(&mut self) -> (frames: Vec<Vec<u8>>)
        ensures
            final(self).opened(),
            final(self).queue() == Seq::<ClientMessage>::empty(),
            frames@.len() == old(self).queue().len(),
            forall|i: int|
                0 <= i < frames@.len() ==> (#[trigger] frames@[i])@ == client_message_bytes(
                    old(self).queue()[i],
                ),
    {
        self.open = true;
        let msgs = self.queue.split_off(0);
        proof {
            assert(self.queue() =~= Seq::<ClientMessage>::empty());
        }
        let mut frames: Vec<Vec<u8>> = Vec::new();
        let mut i: usize = 0;
        while i < msgs.len()
            invariant
                i <= msgs.len(),
                msgs@ == old(self).queue(),
                frames@.len() == i,
                forall|j: int|
                    0 <= j < i ==> (#[trigger] frames@[j])@ == client_message_bytes(msgs@[j]),
            decreases msgs.len() - i,
        {
            frames.push(encode_client_message(&msgs[i]));
            i = i + 1;
        }
        frames
    }

    /// Send `msg`: framed for the wire at once if the socket is open,
    /// queued in order behind the others if not.
    pub fn send(&mut self, msg: ClientMessage) -> (r: Option<Vec<u8>>)
        ensures
            final(self).opened() == old(self).opened(),
            old(self).opened() ==> (r matches Some(b) && b@ == client_message_bytes(msg))
                && final(self).queue() == old(self).queue(),
            !old(self).opened() ==> r is None && final(self).queue() == old(self).queue().push(
                msg,
            ),
    {
        if self.open {
            Some(encode_client_message(&msg))
        } else {
            self.queue.push(msg);
            None
        }
    }

    /// Whether the socket has opened.
    pub fn is_open(&self) -> (r: bool)
        ensures
            r == self.opened(),
    {
        self.open
    }
}

} // verus!
