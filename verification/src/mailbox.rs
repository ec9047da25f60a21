//! The queue of cells a relay has delivered as a circuit's exit, waiting
//! for a receiving client to pull them.
//!
//! Any client that asks receives every queued cell: there is no
//! per-recipient addressing here. That leaks nothing, since only the
//! intended recipient's private key decrypts a given cell. The
//! application shares one queue between the relay and its pull listener
//! behind a lock.

use vstd::prelude::*;

verus! {

/// Delivered cells, oldest first.
pub struct MailboxQueue {
    cells: Vec<Vec<u8>>,
}

impl View for MailboxQueue {
    type V = Seq<Seq<u8>>;

    closed spec fn view(&self) -> Seq<Seq<u8>> {
        self.cells@.map_values(|c: Vec<u8>| c@)
    }
}

impl MailboxQueue {
    /// An empty queue.
    pub fn new() -> (r: Self)
        ensures
            r@ == Seq::<Seq<u8>>::empty(),
    {
        let r = MailboxQueue { cells: Vec::new() };
        assert(r@ =~= Seq::<Seq<u8>>::empty());
        r
    }

    /// Adds a delivered cell after every cell already queued.
    pub fn push(&mut self, cell: Vec<u8>)
        ensures
            final(self)@ == old(self)@.push(cell@),
    {
        self.cells.push(cell);
        assert(self@ =~= old(self)@.push(cell@));
    }

    /// Removes and returns every queued cell, oldest first. An empty
    /// result is not an error: the client polls again later.
    pub fn drain(&mut self) -> (r: Vec<Vec<u8>>)
        ensures
            r@.map_values(|c: Vec<u8>| c@) == old(self)@,
            final(self)@ == Seq::<Seq<u8>>::empty(),
    {
        let mut taken: Vec<Vec<u8>> = Vec::new();
        std::mem::swap(&mut taken, &mut self.cells);
        assert(self@ =~= Seq::<Seq<u8>>::empty());
        taken
    }

    /// How many cells are queued.
    pub fn len(&self) -> (r: usize)
        ensures
            r == self@.len(),
    {
        self.cells.len()
    }

    /// Whether no cell is queued.
    pub fn is_empty(&self) -> (r: bool)
        ensures
            r == (self@.len() == 0),
    {
        self.cells.len() == 0
    }
}

impl Default for MailboxQueue {
    fn default() -> (r: Self)
        ensures
            r@ == Seq::<Seq<u8>>::empty(),
    {
        MailboxQueue::new()
    }
}

/// Draining after a series of pushes gives back exactly the pushed cells,
/// in the order they were pushed, and leaves nothing behind: the queue's
/// contents after pushing `cells` onto `queued` are `queued` followed by
/// `cells`.
pub proof fn lemma_pushes_then_drain(queued: Seq<Seq<u8>>, cells: Seq<Seq<u8>>)
    ensures
        cells.fold_left(queued, |q: Seq<Seq<u8>>, c: Seq<u8>| q.push(c)) == queued + cells,
    decreases cells.len(),
{
    if cells.len() > 0 {
        lemma_pushes_then_drain(queued, cells.drop_last());
        assert(cells.drop_last().push(cells.last()) =~= cells);
        assert(queued + cells.drop_last().push(cells.last()) =~= (queued + cells.drop_last()).push(
            cells.last(),
        ));
    } else {
        assert(queued + cells =~= queued);
    }
}

} // verus!
