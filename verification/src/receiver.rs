//! The receiving side.
//!
//! A recipient cannot know which relay a message will leave through:
//! each path is drawn at random by the sender. So a receiving client
//! pulls every relay's mailbox and tries to open everything it gets.
//! Cells meant for someone else fail to decrypt and are dropped; nothing
//! in the ciphertext tells who a cell was for. The application does the
//! pulling; this module opens envelopes and reassembles messages.

use vstd::prelude::*;

use crate::cell::{Cell, CellView};
use crate::client::sealed_envelope;
use crate::crypto::encryption::{decrypt_cell, spec_decrypt_cell, spec_encrypted_cell, NONCE_SIZE};
use crate::crypto::keys::KeyPair;
use crate::envelope::{spec_unwrap, spec_wrap, unwrap, ENVELOPE_SIZE};
use crate::error::{VeilError, VeilResult};
use crate::primitives::{x25519_base, x25519_shared};
use crate::reassembly::{outcome_view, spec_insert_all, InFlight, Reassembler};
use crate::session::{session_context, spec_session_key, Session};

verus! {

#[derive(Debug)]
pub enum ReceiveError {
    Io(std::io::Error),
}

/// What opening an envelope with the private key `secret` gives: the
/// cell, when the envelope has the right size and its cell decrypts
/// under the session key derived from the sender's public key.
pub open spec fn spec_open_envelope(secret: Seq<u8>, raw: Seq<u8>) -> Option<CellView> {
    match spec_unwrap(raw) {
        Err(_) => None,
        Ok((sender, encrypted)) => match spec_decrypt_cell(
            spec_session_key(x25519_shared(secret, sender)),
            encrypted,
        ) {
            Ok(c) => Some(c),
            Err(_) => None,
        },
    }
}

/// The envelope a sender with ephemeral private key `sender` builds for
/// the recipient whose public key is `recipient`: the sender's public
/// key, then the cell encrypted under their session key with `nonce`.
pub open spec fn envelope_for(sender: Seq<u8>, recipient: Seq<u8>, nonce: Seq<u8>, c: CellView) -> Seq<
    u8,
> {
    spec_wrap(
        x25519_base(sender),
        spec_encrypted_cell(spec_session_key(x25519_shared(sender, recipient)), nonce, c),
    )
}

/// Opens one delivered envelope with the recipient's key pair. Gives
/// nothing for an envelope of the wrong size or one that does not
/// decrypt, which is what a cell meant for someone else does.
///
/// An envelope that a session established with this key pair's public
/// key sealed opens to the cell that was sealed.
pub fn open_envelope(identity: &KeyPair, raw: &[u8]) -> (r: Option<Cell>)
    ensures
        match spec_open_envelope(identity.secret(), raw@) {
            Some(c) => r matches Some(d) && d@ == c,
            None => r is None,
        },
        forall|sender: Seq<u8>, nonce: Seq<u8>, c: CellView|
            sender.len() == 32 && x25519_base(sender).len() == 32 && nonce.len() == NONCE_SIZE
                && c.wf() && raw@.len() == ENVELOPE_SIZE && raw@ == #[trigger] envelope_for(
                sender,
                identity.public(),
                nonce,
                c,
            ) ==> (r matches Some(d) && d@ == c),
{
    let (sender_public, encrypted) = match unwrap(raw) {
        Ok(x) => x,
        Err(_) => {
            proof {
                assert forall|sender: Seq<u8>, nonce: Seq<u8>, c: CellView|
                    sender.len() == 32 && x25519_base(sender).len() == 32 && nonce.len() == NONCE_SIZE
                        && c.wf() && raw@.len() == ENVELOPE_SIZE && raw@ == #[trigger] envelope_for(
                        sender,
                        identity.public(),
                        nonce,
                        c,
                    ) implies false by {}
            }
            return None;
        },
    };
    let shared = identity.diffie_hellman(&sender_public);
    let key = match shared.derive_key(session_context()) {
        Ok(k) => k,
        Err(_) => {
            return None;
        },
    };
    let r = decrypt_cell(&key, &encrypted);
    proof {
        assert forall|sender: Seq<u8>, nonce: Seq<u8>, c: CellView|
            sender.len() == 32 && x25519_base(sender).len() == 32 && nonce.len() == NONCE_SIZE
                && c.wf() && raw@.len() == ENVELOPE_SIZE && raw@ == #[trigger] envelope_for(
                sender,
                identity.public(),
                nonce,
                c,
            ) implies (r matches Ok(d) && d@ == c) by {
            let enc = spec_encrypted_cell(
                spec_session_key(x25519_shared(sender, identity.public())),
                nonce,
                c,
            );
            assert(raw@.take(32) =~= x25519_base(sender));
            assert(raw@.skip(32) =~= enc);
            assert(sender_public@ == x25519_base(sender));
            assert(encrypted@ == enc);
        }
    }
    match r {
        Ok(c) => Some(c),
        Err(_) => None,
    }
}

/// What opening every envelope in order gives: the cells of those that
/// open, in order.
pub open spec fn spec_open_all(secret: Seq<u8>, raws: Seq<Seq<u8>>) -> Seq<CellView>
    decreases raws.len(),
{
    if raws.len() == 0 {
        Seq::empty()
    } else {
        let before = spec_open_all(secret, raws.drop_last());
        match spec_open_envelope(secret, raws.last()) {
            Some(c) => before.push(c),
            None => before,
        }
    }
}

/// The views of a list of cells.
pub open spec fn cell_list_views(cells: Seq<Cell>) -> Seq<CellView> {
    cells.map_values(|c: Cell| c@)
}

/// Opens every envelope pulled from one mailbox, keeping the cells meant
/// for `identity`, in order.
pub fn open_deliveries(identity: &KeyPair, envelopes: &Vec<Vec<u8>>) -> (r: Vec<Cell>)
    ensures
        cell_list_views(r@) == spec_open_all(
            identity.secret(),
            envelopes@.map_values(|e: Vec<u8>| e@),
        ),
        cell_list_views(r@) == cells_that_open(
            identity.secret(),
            envelopes@.map_values(|e: Vec<u8>| e@),
        ),
{
    let ghost raws = envelopes@.map_values(|e: Vec<u8>| e@);
    proof {
        lemma_open_all_keeps_every_cell(identity.secret(), raws);
    }
    let mut out: Vec<Cell> = Vec::new();
    let mut i: usize = 0;
    while i < envelopes.len()
        invariant
            i <= envelopes@.len(),
            raws == envelopes@.map_values(|e: Vec<u8>| e@),
            cell_list_views(out@) == spec_open_all(identity.secret(), raws.take(i as int)),
        decreases envelopes@.len() - i,
    {
        proof {
            assert(raws.take(i + 1).drop_last() =~= raws.take(i as int));
            assert(raws.take(i + 1).last() == envelopes@[i as int]@);
        }
        match open_envelope(identity, envelopes[i].as_slice()) {
            Some(c) => {
                let ghost prev = out@;
                out.push(c);
                assert(cell_list_views(out@) =~= cell_list_views(prev).push(c@));
            },
            None => {},
        }
        i = i + 1;
    }
    assert(raws.take(envelopes@.len() as int) =~= raws);
    out
}

/// The messages that a run of insertions completed, in order.
pub open spec fn completed(outs: Seq<Result<Option<Seq<u8>>, VeilError>>) -> Seq<Seq<u8>>
    decreases outs.len(),
{
    if outs.len() == 0 {
        Seq::empty()
    } else {
        let before = completed(outs.drop_last());
        match outs.last() {
            Ok(Some(m)) => before.push(m),
            _ => before,
        }
    }
}

/// A receiver that reassembles messages across repeated polls.
///
/// Each cell of a message takes its own random path, so fragments can
/// leave through different relays and arrive at different times. The
/// receiver keeps its reassembler between polls, so fragments accumulate
/// however many polls it takes.
pub struct Receiver {
    identity: KeyPair,
    reassembler: Reassembler,
}

impl Receiver {
    /// The key pair that cells must be meant for.
    pub closed spec fn key_pair(&self) -> KeyPair {
        self.identity
    }

    /// The messages in flight.
    pub closed spec fn in_flight(&self) -> InFlight {
        self.reassembler@
    }

    pub fn new(identity: KeyPair) -> (r: Self)
        ensures
            r.key_pair() == identity,
            r.in_flight() == InFlight::empty(),
    {
        Receiver { identity, reassembler: Reassembler::new() }
    }

    /// The key pair that cells must be meant for.
    pub fn identity(&self) -> (r: &KeyPair)
        ensures
            *r == self.key_pair(),
    {
        &self.identity
    }

    /// Feeds the cells of one poll into the reassembler, in order, and
    /// returns every message that is now complete, possibly with
    /// fragments from earlier polls. A cell that the reassembler refuses
    /// is dropped rather than ending the poll. An empty result only means
    /// that nothing completed this time.
    pub fn accept(&mut self, cells: Vec<Cell>) -> (r: Vec<Vec<u8>>)
        ensures
            final(self).key_pair() == old(self).key_pair(),
            final(self).in_flight() == spec_insert_all(old(self).in_flight(), cell_list_views(
                cells@,
            )).0,
            r@.map_values(|m: Vec<u8>| m@) == completed(
                spec_insert_all(old(self).in_flight(), cell_list_views(cells@)).1,
            ),
            r@.map_values(|m: Vec<u8>| m@) == messages_completed(
                spec_insert_all(old(self).in_flight(), cell_list_views(cells@)).1,
            ),
    {
        proof {
            lemma_completed_keeps_every_message(
                spec_insert_all(self.reassembler@, cell_list_views(cells@)).1,
            );
        }
        let ghost views = cell_list_views(cells@);
        let ghost start = self.reassembler@;
        let mut completed_messages: Vec<Vec<u8>> = Vec::new();
        let mut i: usize = 0;
        assert(views.take(0) =~= Seq::<CellView>::empty());
        while i < cells.len()
            invariant
                i <= cells@.len(),
                views == cell_list_views(cells@),
                self.identity == old(self).identity,
                start == old(self).reassembler@,
                self.reassembler@ == spec_insert_all(start, views.take(i as int)).0,
                completed_messages@.map_values(|m: Vec<u8>| m@) == completed(
                    spec_insert_all(start, views.take(i as int)).1,
                ),
            decreases cells@.len() - i,
        {
            let cell = cells[i];
            proof {
                assert(views.take(i + 1).drop_last() =~= views.take(i as int));
                assert(views.take(i + 1).last() == cell@);
            }
            let ghost before_insert = spec_insert_all(start, views.take(i as int));
            let outcome = self.reassembler.insert(cell);
            proof {
                assert(spec_insert_all(start, views.take(i + 1)).1 == before_insert.1.push(
                    outcome_view(outcome),
                ));
                assert(before_insert.1.push(outcome_view(outcome)).drop_last() =~= before_insert.1);
            }
            match outcome {
                Ok(Some(message)) => {
                    let ghost prev = completed_messages@;
                    completed_messages.push(message);
                    assert(completed_messages@.map_values(|m: Vec<u8>| m@) =~= prev.map_values(
                        |m: Vec<u8>| m@,
                    ).push(message@));
                },
                _ => {},
            }
            i = i + 1;
        }
        assert(views.take(cells@.len() as int) =~= views);
        completed_messages
    }

    /// How many messages are partly received and waiting for fragments.
    pub fn pending_count(&self) -> (r: usize)
        ensures
            r == self.in_flight().len(),
    {
        self.reassembler.pending_count()
    }
}

/// What a sender seals for a session reaches the session's recipient
/// intact: an envelope sealed for a session whose key was derived against
/// `recipient_public` is the envelope that the session's ephemeral key
/// builds for that recipient, which `open_envelope` opens, with the key
/// pair whose public key is `recipient_public`, to the sealed cell.
pub proof fn lemma_sealed_envelope_opens_for_recipient(
    session: Session,
    recipient_public: Seq<u8>,
    nonce: Seq<u8>,
    c: CellView,
)
    requires
        session.key() == spec_session_key(x25519_shared(session.secret(), recipient_public)),
    ensures
        sealed_envelope(session, nonce, c) == envelope_for(session.secret(), recipient_public, nonce, c),
{
}

/// Whether an insertion outcome completed a message.
pub open spec fn completes_message(o: Result<Option<Seq<u8>>, VeilError>) -> bool {
    o is Ok && o->Ok_0 is Some
}

/// The messages among insertion outcomes: every outcome that completed a
/// message, in order, as its message.
pub open spec fn messages_completed(outs: Seq<Result<Option<Seq<u8>>, VeilError>>) -> Seq<Seq<u8>> {
    outs.filter(|o: Result<Option<Seq<u8>>, VeilError>| completes_message(o)).map_values(
        |o: Result<Option<Seq<u8>>, VeilError>| o->Ok_0->Some_0,
    )
}

/// The cells among envelopes: every envelope that opens under `secret`,
/// in order, as its cell.
pub open spec fn cells_that_open(secret: Seq<u8>, raws: Seq<Seq<u8>>) -> Seq<CellView> {
    raws.filter(|e: Seq<u8>| spec_open_envelope(secret, e) is Some).map_values(
        |e: Seq<u8>| spec_open_envelope(secret, e)->Some_0,
    )
}

/// One more insertion adds its message to what a poll hands back exactly
/// when it completed one, and adds nothing otherwise: no completed
/// message is ever dropped.
pub proof fn lemma_completed_push(
    outs: Seq<Result<Option<Seq<u8>>, VeilError>>,
    o: Result<Option<Seq<u8>>, VeilError>,
)
    ensures
        completed(outs.push(o)) == if completes_message(o) {
            completed(outs).push(o->Ok_0->Some_0)
        } else {
            completed(outs)
        },
{
    assert(outs.push(o).drop_last() =~= outs);
}

/// A poll hands back every message that its insertions completed, in the
/// order they completed, and nothing else: as many messages as there
/// were completing insertions.
pub proof fn lemma_completed_keeps_every_message(outs: Seq<Result<Option<Seq<u8>>, VeilError>>)
    ensures
        completed(outs) == messages_completed(outs),
        completed(outs).len() == outs.filter(
            |o: Result<Option<Seq<u8>>, VeilError>| completes_message(o),
        ).len(),
    decreases outs.len(),
{
    let p = |o: Result<Option<Seq<u8>>, VeilError>| completes_message(o);
    let f = |o: Result<Option<Seq<u8>>, VeilError>| o->Ok_0->Some_0;
    if outs.len() == 0 {
        assert(outs.filter(p) =~= Seq::<Result<Option<Seq<u8>>, VeilError>>::empty());
        assert(completed(outs) =~= messages_completed(outs));
    } else {
        let init = outs.drop_last();
        let o = outs.last();
        lemma_completed_keeps_every_message(init);
        assert(init.push(o) =~= outs);
        lemma_completed_push(init, o);
        init.lemma_filter_push(o, p);
        init.filter(p).lemma_push_map_commute(f, o);
    }
}

/// One more envelope adds its cell to what opening hands back exactly when
/// it opens under `secret`: no cell that opens is ever dropped.
pub proof fn lemma_open_all_push(secret: Seq<u8>, raws: Seq<Seq<u8>>, e: Seq<u8>)
    ensures
        spec_open_all(secret, raws.push(e)) == match spec_open_envelope(secret, e) {
            Some(c) => spec_open_all(secret, raws).push(c),
            None => spec_open_all(secret, raws),
        },
{
    assert(raws.push(e).drop_last() =~= raws);
}

/// Opening a mailbox's envelopes keeps the cell of every envelope that
/// opens under `secret`, in order, and nothing else: as many cells as
/// envelopes that open.
pub proof fn lemma_open_all_keeps_every_cell(secret: Seq<u8>, raws: Seq<Seq<u8>>)
    ensures
        spec_open_all(secret, raws) == cells_that_open(secret, raws),
        spec_open_all(secret, raws).len() == raws.filter(
            |e: Seq<u8>| spec_open_envelope(secret, e) is Some,
        ).len(),
    decreases raws.len(),
{
    let p = |e: Seq<u8>| spec_open_envelope(secret, e) is Some;
    let f = |e: Seq<u8>| spec_open_envelope(secret, e)->Some_0;
    if raws.len() == 0 {
        assert(raws.filter(p) =~= Seq::<Seq<u8>>::empty());
        assert(spec_open_all(secret, raws) =~= cells_that_open(secret, raws));
    } else {
        let init = raws.drop_last();
        let e = raws.last();
        lemma_open_all_keeps_every_cell(secret, init);
        assert(init.push(e) =~= raws);
        lemma_open_all_push(secret, init, e);
        init.lemma_filter_push(e, p);
        init.filter(p).lemma_push_map_commute(f, e);
    }
}

} // verus!
