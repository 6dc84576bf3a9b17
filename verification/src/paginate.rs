//! The Paginator: assembles a channel's full message set through the
//! cursor protocol, one page at a time.
//!
//! The network round trip itself lives with the caller; this state
//! machine decides, from each received page, what to accumulate,
//! whether another request is due, and with which cursor.

use vstd::prelude::*;
use crate::msg::Message;

verus! {

/// One run of the cursor protocol.
pub struct Paginator {
    /// How many messages every request asks for.
    pub page_size: usize,
    /// Messages gathered so far, in the order received: globally from
    /// most recent to least recent, provided the source honours the
    /// cursor protocol.
    pub messages: Vec<Message>,
    /// `id` of the oldest message of the last full page; the next page
    /// must hold only messages strictly older than it. `None` asks for
    /// the most recent page.
    pub cursor: Option<String>,
    /// Whether the channel's tail was reached.
    pub done: bool,
}

impl Paginator {
    /// A fresh run: nothing gathered, no cursor, not done.
    pub fn new(page_size: usize) -> (p: Paginator)
        ensures
            p.page_size == page_size,
            p.messages@ == Seq::<Message>::empty(),
            p.cursor is None,
            !p.done,
    {
        Paginator { page_size, messages: Vec::new(), cursor: None, done: false }
    }

    /// Feed the page the source returned for the current cursor.
    ///
    /// The page's messages are appended in the order received. A page
    /// shorter than `page_size`, or an empty page, ends the run;
    /// otherwise the cursor moves to the `id` of the page's last
    /// (oldest) message and another request is due.
    pub fn accept_page(&mut self, page: Vec<Message>)
        requires
            !old(self).done,
        ensures
            final(self).page_size == old(self).page_size,
            final(self).messages@ == old(self).messages@ + page@,
            final(self).done == (page@.len() < old(self).page_size || page@.len() == 0),
            final(self).done ==> final(self).cursor == old(self).cursor,
            !final(self).done ==> final(self).cursor == Some(page@.last().id),
    {
        let n = page.len();
        if n < self.page_size || n == 0 {
            let mut pg = page;
            self.messages.append(&mut pg);
            self.done = true;
        } else {
            let id = page[n - 1].id.clone();
            let mut pg = page;
            self.messages.append(&mut pg);
            self.cursor = Some(id);
        }
    }
}

} // verus!
