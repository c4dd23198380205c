//! The bounded first-in first-out box of deliveries that waits for a local
//! client to poll.
use crate::messages::ClientId;
use std::collections::VecDeque;
use vstd::prelude::*;

verus! {

/// How many deliveries a mailbox holds at most.
pub const MAILBOX_SIZE: usize = 256;

/// Deliveries, each a sender and a content, oldest first. It grows only
/// while it holds fewer than `MAILBOX_SIZE`.
pub struct Mailbox {
    entries: VecDeque<(ClientId, String)>,
}

impl View for Mailbox {
    type V = Seq<(ClientId, Seq<char>)>;

    closed spec fn view(&self) -> Seq<(ClientId, Seq<char>)> {
        self.entries@.map_values(|e: (ClientId, String)| (e.0, e.1@))
    }
}

impl Mailbox {
    /// An empty mailbox.
    pub fn new() -> (r: Mailbox)
        ensures
            r@ == Seq::<(ClientId, Seq<char>)>::empty(),
    {
        let r = Mailbox { entries: VecDeque::new() };
        assert(r@ =~= Seq::<(ClientId, Seq<char>)>::empty());
        r
    }

    pub fn len(&self) -> (n: usize)
        ensures
            n == self@.len(),
    {
        self.entries.len()
    }

    /// Appends a delivery, unless the mailbox is full; says whether it did.
    pub fn push(&mut self, src: ClientId, content: String) -> (accepted: bool)
        ensures
            accepted == (old(self)@.len() < MAILBOX_SIZE),
            accepted ==> final(self)@ == old(self)@.push((src, content@)),
            !accepted ==> final(self)@ == old(self)@,
    {
        if self.entries.len() < MAILBOX_SIZE {
            self.entries.push_back((src, content));
            assert(self@ =~= old(self)@.push((src, content@)));
            true
        } else {
            false
        }
    }

    /// Takes the oldest delivery, if there is one.
    pub fn pop(&mut self) -> (r: Option<(ClientId, String)>)
        ensures
            match r {
                Some(e) => old(self)@.len() > 0 && (e.0, e.1@) == old(self)@[0] && final(self)@
                    == old(self)@.drop_first(),
                None => old(self)@.len() == 0 && final(self)@ == old(self)@,
            },
    {
        let r = self.entries.pop_front();
        assert(self@ =~= if r is Some { old(self)@.drop_first() } else { old(self)@ });
        r
    }
}

} // verus!
