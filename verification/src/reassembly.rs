//! Rebuilds original messages from cells received over the fabric.

use vstd::prelude::*;
use vstd::slice::slice_to_vec;

use crate::bytes::append_bytes;
use crate::cell::{Cell, CellView, MessageId};
use crate::error::{VeilError, VeilResult};
use crate::fragmentation::{
    chunk_count, concat_data, lemma_fragments_carry_message, spec_fragments, MAX_MESSAGE_SIZE,
};

verus! {

/// The fragments received so far for one message, one slot per sequence
/// position.
pub type Slots = Seq<Option<Seq<u8>>>;

/// `n` empty slots.
pub open spec fn empty_slots(n: nat) -> Slots {
    Seq::new(n, |i: int| None::<Seq<u8>>)
}

/// Whether every slot holds a fragment.
pub open spec fn all_filled(s: Slots) -> bool {
    forall|i: int| 0 <= i < s.len() ==> (#[trigger] s[i]) is Some
}

/// How many slots hold a fragment.
pub open spec fn filled_count(s: Slots) -> nat
    decreases s.len(),
{
    if s.len() == 0 {
        0
    } else {
        filled_count(s.drop_last()) + if s.last() is Some {
            1nat
        } else {
            0nat
        }
    }
}

/// The fragments in the slots, concatenated in sequence order.
pub open spec fn join_slots(s: Slots) -> Seq<u8>
    decreases s.len(),
{
    if s.len() == 0 {
        Seq::empty()
    } else {
        join_slots(s.drop_last()) + match s.last() {
            Some(d) => d,
            None => Seq::empty(),
        }
    }
}

/// The messages in flight: message id to the slots received so far.
pub type InFlight = Map<Seq<u8>, Slots>;

/// What inserting a well-formed cell does: the new in-flight state and
/// the outcome. A cell whose sequence total differs from the one already
/// recorded for its id is refused and changes nothing; a repeated
/// position keeps its first fragment; the message completes, and leaves
/// the in-flight state, when its last empty slot is filled.
pub open spec fn spec_insert(state: InFlight, c: CellView) -> (InFlight, Result<
    Option<Seq<u8>>,
    VeilError,
>) {
    let id = c.message_id;
    let slots = if state.contains_key(id) {
        state[id]
    } else {
        empty_slots(c.seq_total as nat)
    };
    if slots.len() != c.seq_total {
        (state, Err(VeilError::MismatchedMessageId))
    } else {
        let filled = if slots[c.seq_index as int] is None {
            slots.update(c.seq_index as int, Some(c.data()))
        } else {
            slots
        };
        if all_filled(filled) {
            (state.remove(id), Ok(Some(join_slots(filled))))
        } else {
            (state.insert(id, filled), Ok(None))
        }
    }
}

/// What holds of the messages in flight at every moment: finitely many,
/// and each has at least one fragment and is still missing one.
pub open spec fn in_flight_wf(state: InFlight) -> bool {
    &&& state.dom().finite()
    &&& forall|id: Seq<u8>|
        #[trigger] state.contains_key(id) ==> 1 <= filled_count(state[id]) && !all_filled(state[id])
}

/// The outcome of an insertion, as plain values.
pub open spec fn outcome_view(r: VeilResult<Option<Vec<u8>>>) -> Result<Option<Seq<u8>>, VeilError> {
    match r {
        Ok(Some(m)) => Ok(Some(m@)),
        Ok(None) => Ok(None),
        Err(e) => Err(e),
    }
}

/// Inserting a sequence of cells one after another: the final in-flight
/// state and the outcome of each insertion.
pub open spec fn spec_insert_all(state: InFlight, cells: Seq<CellView>) -> (InFlight, Seq<
    Result<Option<Seq<u8>>, VeilError>,
>)
    decreases cells.len(),
{
    if cells.len() == 0 {
        (state, Seq::empty())
    } else {
        let (mid, outs) = spec_insert_all(state, cells.drop_last());
        let (last, out) = spec_insert(mid, cells.last());
        (last, outs.push(out))
    }
}

/// The cells of message `m`, taken in the order `order` lists their
/// positions.
pub open spec fn fragments_in_order(m: Seq<u8>, id: Seq<u8>, order: Seq<int>) -> Seq<CellView> {
    Seq::new(order.len(), |k: int| spec_fragments(m, id)[order[k]])
}

/// Whether `order` lists every position below `n` exactly once.
pub open spec fn is_permutation_of_positions(order: Seq<int>, n: nat) -> bool {
    &&& order.len() == n
    &&& order.no_duplicates()
    &&& forall|k: int| 0 <= k < order.len() ==> 0 <= #[trigger] order[k] < n
    &&& forall|j: int| 0 <= j < n ==> #[trigger] order.contains(j)
}

/// Fragmenting a message and feeding all of its cells, in any order, to a
/// reassembler that holds nothing under the message's id gives back the
/// message exactly when the last cell goes in; every earlier insertion
/// reports an incomplete message, and afterwards the reassembler holds
/// what it held before.
pub proof fn lemma_reassembly_recovers_message(
    state: InFlight,
    m: Seq<u8>,
    id: Seq<u8>,
    order: Seq<int>,
)
    requires
        0 < m.len() <= MAX_MESSAGE_SIZE,
        id.len() == 16,
        !state.contains_key(id),
        is_permutation_of_positions(order, chunk_count(m.len())),
    ensures
        ({
            let (end, outs) = spec_insert_all(state, fragments_in_order(m, id, order));
            &&& end == state
            &&& outs.len() == order.len()
            &&& outs.last() == Ok::<Option<Seq<u8>>, VeilError>(Some(m))
            &&& forall|k: int| 0 <= k < outs.len() - 1 ==> #[trigger] outs[k] == Ok::<
                Option<Seq<u8>>,
                VeilError,
            >(None)
        }),
{
    let n = chunk_count(m.len());
    let cells = fragments_in_order(m, id, order);
    lemma_fragments_carry_message(m, id);
    lemma_insert_prefix(state, m, id, order, (n - 1) as int);
    let (mid, outs) = spec_insert_all(state, cells.take(n - 1));
    assert(cells.take(n as int).drop_last() =~= cells.take(n - 1));
    assert(cells.take(n as int) =~= cells);
    let c = cells[n - 1];
    let slots = slots_after(m, id, order, n - 1);
    let full = slots.update(order[n - 1], Some(c.data()));
    assert(!order.take(n - 1).contains(order[n - 1])) by {
        if order.take(n - 1).contains(order[n - 1]) {
            let k = choose|k: int| 0 <= k < n - 1 && #[trigger] order.take(n - 1)[k] == order[n - 1];
            assert(order[k] == order[n - 1]);
        }
    }
    assert(full =~= slots_after(m, id, order, n as int)) by {
        assert(order.take(n as int) =~= order);
        assert forall|j: int| 0 <= j < n implies #[trigger] full[j] == slots_after(
            m,
            id,
            order,
            n as int,
        )[j] by {
            if j != order[n - 1] {
                if order.take(n as int).contains(j) {
                    let k = choose|k: int| 0 <= k < n && #[trigger] order.take(n as int)[k] == j;
                    assert(order.take(n - 1)[k] == j);
                }
                if order.take(n - 1).contains(j) {
                    let k = choose|k: int| 0 <= k < n - 1 && #[trigger] order.take(n - 1)[k] == j;
                    assert(order.take(n as int)[k] == j);
                }
            } else {
                assert(order.take(n as int)[n - 1] == j);
            }
        }
    }
    assert(all_filled(full)) by {
        assert forall|j: int| 0 <= j < full.len() implies (#[trigger] full[j]) is Some by {
            assert(order.contains(j));
            let k = choose|k: int| 0 <= k < order.len() && #[trigger] order[k] == j;
            assert(order.take(n as int) =~= order);
            assert(order.take(n as int)[k] == j);
        }
    }
    lemma_join_full_slots(m, id);
    assert(full =~= Seq::new(n, |j: int| Some(spec_fragments(m, id)[j].data()))) by {
        assert forall|j: int| 0 <= j < n implies #[trigger] full[j] == Some(
            spec_fragments(m, id)[j].data(),
        ) by {
            assert(order.contains(j));
            let k = choose|k: int| 0 <= k < order.len() && #[trigger] order[k] == j;
            assert(order.take(n as int) =~= order);
            assert(order.take(n as int)[k] == j);
        }
    }
    if n > 1 {
        assert(mid == state.insert(id, slots));
    } else {
        assert(slots =~= empty_slots(n));
    }
    assert(state.insert(id, slots).remove(id) =~= state);
}

/// The slots after the first `k` cells of `order` went in.
pub open spec fn slots_after(m: Seq<u8>, id: Seq<u8>, order: Seq<int>, k: int) -> Slots {
    Seq::new(
        chunk_count(m.len()),
        |j: int|
            if order.take(k).contains(j) {
                Some(spec_fragments(m, id)[j].data())
            } else {
                None
            },
    )
}

/// Before the last cell, every insertion is incomplete and the message's
/// slots hold exactly the fragments inserted so far.
proof fn lemma_insert_prefix(state: InFlight, m: Seq<u8>, id: Seq<u8>, order: Seq<int>, k: int)
    requires
        0 < m.len() <= MAX_MESSAGE_SIZE,
        id.len() == 16,
        !state.contains_key(id),
        is_permutation_of_positions(order, chunk_count(m.len())),
        0 <= k < chunk_count(m.len()),
    ensures
        ({
            let (mid, outs) = spec_insert_all(state, fragments_in_order(m, id, order).take(k));
            &&& outs.len() == k
            &&& forall|i: int| 0 <= i < k ==> #[trigger] outs[i] == Ok::<
                Option<Seq<u8>>,
                VeilError,
            >(None)
            &&& k == 0 ==> mid == state
            &&& k > 0 ==> mid == state.insert(id, slots_after(m, id, order, k))
        }),
    decreases k,
{
    let n = chunk_count(m.len());
    let cells = fragments_in_order(m, id, order);
    lemma_fragments_carry_message(m, id);
    if k == 0 {
        assert(cells.take(0) =~= Seq::<CellView>::empty());
    } else {
        lemma_insert_prefix(state, m, id, order, k - 1);
        assert(cells.take(k).drop_last() =~= cells.take(k - 1));
        let (mid, outs) = spec_insert_all(state, cells.take(k - 1));
        let c = cells[k - 1];
        assert(c == spec_fragments(m, id)[order[k - 1]]);
        let prev = slots_after(m, id, order, k - 1);
        if k - 1 == 0 {
            assert(prev =~= empty_slots(n)) by {
                assert(order.take(0) =~= Seq::<int>::empty());
            }
        }
        assert(!order.take(k - 1).contains(order[k - 1])) by {
            if order.take(k - 1).contains(order[k - 1]) {
                let i = choose|i: int| 0 <= i < k - 1 && #[trigger] order.take(k - 1)[i] == order[k - 1];
                assert(order[i] == order[k - 1]);
            }
        }
        let next = prev.update(order[k - 1], Some(c.data()));
        assert(next =~= slots_after(m, id, order, k)) by {
            assert forall|j: int| 0 <= j < n implies #[trigger] next[j] == slots_after(
                m,
                id,
                order,
                k,
            )[j] by {
                if j != order[k - 1] {
                    if order.take(k).contains(j) {
                        let i = choose|i: int| 0 <= i < k && #[trigger] order.take(k)[i] == j;
                        assert(order.take(k - 1)[i] == j);
                    }
                    if order.take(k - 1).contains(j) {
                        let i = choose|i: int| 0 <= i < k - 1 && #[trigger] order.take(k - 1)[i] == j;
                        assert(order.take(k)[i] == j);
                    }
                } else {
                    assert(order.take(k)[k - 1] == j);
                }
            }
        }
        assert(!all_filled(next)) by {
            assert(!order.take(k).contains(order[k])) by {
                if order.take(k).contains(order[k]) {
                    let i = choose|i: int| 0 <= i < k && #[trigger] order.take(k)[i] == order[k];
                    assert(order[i] == order[k]);
                }
            }
            assert(next[order[k]] is None);
        }
        assert(state.insert(id, prev).insert(id, next) =~= state.insert(id, next));
    }
}

/// Slots filled with every fragment of a message, in order, join to the
/// message.
proof fn lemma_join_full_slots(m: Seq<u8>, id: Seq<u8>)
    requires
        0 < m.len() <= MAX_MESSAGE_SIZE,
        id.len() == 16,
    ensures
        join_slots(
            Seq::new(chunk_count(m.len()), |j: int| Some(spec_fragments(m, id)[j].data())),
        ) == m,
{
    lemma_fragments_carry_message(m, id);
    lemma_join_is_concat(spec_fragments(m, id));
    assert(Seq::new(chunk_count(m.len()), |j: int| Some(spec_fragments(m, id)[j].data()))
        =~= spec_fragments(m, id).map_values(|c: CellView| Some(c.data())));
}

proof fn lemma_join_is_concat(cs: Seq<CellView>)
    ensures
        join_slots(cs.map_values(|c: CellView| Some(c.data()))) == concat_data(cs),
    decreases cs.len(),
{
    if cs.len() > 0 {
        lemma_join_is_concat(cs.drop_last());
        assert(cs.map_values(|c: CellView| Some(c.data())).drop_last() =~= cs.drop_last().map_values(
            |c: CellView| Some(c.data()),
        ));
    }
}

struct PartialMessage {
    id: MessageId,
    seq_total: u16,
    received: usize,
    fragments: Vec<Option<Vec<u8>>>,
}

spec fn slot_view(o: Option<Vec<u8>>) -> Option<Seq<u8>> {
    match o {
        Some(v) => Some(v@),
        None => None,
    }
}

spec fn entry_slots(e: PartialMessage) -> Slots {
    e.fragments@.map_values(|o: Option<Vec<u8>>| slot_view(o))
}

spec fn entry_shape(e: PartialMessage) -> bool {
    &&& 0 < e.seq_total
    &&& e.fragments@.len() == e.seq_total
    &&& e.received == filled_count(entry_slots(e))
}

/// An entry in flight holds at least one fragment and is not yet
/// complete.
spec fn entry_wf(e: PartialMessage) -> bool {
    &&& entry_shape(e)
    &&& 1 <= e.received < e.seq_total
}

spec fn entries_map(es: Seq<PartialMessage>) -> InFlight
    decreases es.len(),
{
    if es.len() == 0 {
        Map::empty()
    } else {
        entries_map(es.drop_last()).insert(es.last().id@, entry_slots(es.last()))
    }
}

spec fn distinct_ids(es: Seq<PartialMessage>) -> bool {
    forall|j: int, k: int| 0 <= j < k < es.len() ==> es[j].id@ != es[k].id@
}

/// Accumulates cells of in-flight messages and rebuilds each message once
/// all of its fragments have arrived.
///
/// It expects real data cells of one logical stream: filtering out cover
/// traffic and telling streams apart is the caller's job, which keeps
/// this type free of I/O and networking.
pub struct Reassembler {
    in_flight: Vec<PartialMessage>,
}

impl View for Reassembler {
    type V = InFlight;

    closed spec fn view(&self) -> InFlight {
        entries_map(self.in_flight@)
    }
}

impl Reassembler {
    #[verifier::type_invariant]
    closed spec fn consistent(self) -> bool {
        &&& distinct_ids(self.in_flight@)
        &&& forall|j: int| 0 <= j < self.in_flight@.len() ==> entry_wf(#[trigger] self.in_flight@[j])
    }

    /// A reassembler with nothing in flight.
    pub fn new() -> (r: Self)
        ensures
            r@ == InFlight::empty(),
            in_flight_wf(r@),
    {
        let r = Reassembler { in_flight: Vec::new() };
        proof {
            lemma_entries_map(r.in_flight@);
        }
        r
    }

    /// Feeds one received cell in.
    ///
    /// Gives `Ok(Some(message))` once every fragment of that cell's message
    /// has arrived, `Ok(None)` while the message is still incomplete, and
    /// `Err(MismatchedMessageId)` when the cell disagrees with fragments
    /// already held for the same id. Cells may come in any order, since
    /// the cells of one message travel independent paths.
    pub fn insert(&mut self, cell: Cell) -> (r: VeilResult<Option<Vec<u8>>>)
        ensures
            spec_insert(old(self)@, cell@) == (final(self)@, outcome_view(r)),
            in_flight_wf(old(self)@),
            in_flight_wf(final(self)@),
    {
        proof {
            use_type_invariant(&*self);
            use_type_invariant(&cell);
            lemma_entries_partial(self.in_flight@);
            lemma_insert_keeps_in_flight_wf(self@, cell@);
        }
        let ghost old_map = self@;
        let ghost c = cell@;
        let id = cell.message_id();
        let seq_total = cell.seq_total();
        let seq_index = cell.seq_index() as usize;
        let mut entries: Vec<PartialMessage> = Vec::new();
        std::mem::swap(&mut entries, &mut self.in_flight);
        proof {
            lemma_entries_map(entries@);
        }
        let found = find_entry(&entries, &id);
        let mut entry = match found {
            Some(j) => {
                proof {
                    lemma_remove_entry(entries@, j as int);
                }
                entries.remove(j)
            },
            None => PartialMessage {
                id,
                seq_total,
                received: 0,
                fragments: empty_fragments(seq_total),
            },
        };
        let ghost rest = entries@;
        let ghost was_found = found is Some;
        proof {
            lemma_filled_count_empty(seq_total as nat);
        }
        assert(distinct_ids(rest));
        assert(entries_map(rest) == old_map.remove(id@));
        assert(entry_shape(entry));
        assert(was_found ==> entry_wf(entry));
        assert(!was_found ==> entry.seq_total == seq_total && entry_slots(entry) == empty_slots(
            seq_total as nat,
        ));
        assert(entry.id@ == id@);
        assert(entry_slots(entry) == if old_map.contains_key(id@) {
            old_map[id@]
        } else {
            empty_slots(seq_total as nat)
        });
        if entry.seq_total != seq_total {
            entries.push(entry);
            proof {
                lemma_push_entry(rest, entry);
                assert(entries_map(entries@) =~= old_map);
            }
            self.in_flight = entries;
            return Err(VeilError::MismatchedMessageId);
        }
        let ghost before = entry_slots(entry);
        proof {
            lemma_filled_count_bound(before);
        }
        if entry.fragments[seq_index].is_none() {
            let data = slice_to_vec(cell.payload());
            entry.fragments.set(seq_index, Some(data));
            entry.received = entry.received + 1;
            proof {
                assert(entry_slots(entry) =~= before.update(seq_index as int, Some(c.data())));
                lemma_filled_count_update(before, seq_index as int, c.data());
            }
        }
        let ghost filled = entry_slots(entry);
        proof {
            lemma_filled_count_bound(filled);
            if !was_found {
                assert(before[seq_index as int] is None);
            }
        }
        assert(entry.received >= 1);
        if entry.received == entry.seq_total as usize {
            let message = join_fragments(&entry.fragments);
            self.in_flight = entries;
            return Ok(Some(message));
        }
        entries.push(entry);
        proof {
            lemma_push_entry(rest, entry);
            assert(entries_map(entries@) =~= old_map.insert(id@, filled));
        }
        self.in_flight = entries;
        Ok(None)
    }

    /// How many messages are partly received and waiting for fragments.
    pub fn pending_count(&self) -> (r: usize)
        ensures
            r == self@.len(),
            in_flight_wf(self@),
    {
        proof {
            use_type_invariant(self);
            lemma_entries_map(self.in_flight@);
            lemma_entries_partial(self.in_flight@);
        }
        self.in_flight.len()
    }

    /// Drops an in-flight message that will never complete (a path went
    /// away, a peer disconnected mid-transfer). There is no built-in
    /// expiry: timing policy belongs to the caller.
    pub fn evict(&mut self, id: &MessageId)
        ensures
            final(self)@ == old(self)@.remove(id@),
            in_flight_wf(final(self)@),
    {
        proof {
            use_type_invariant(&*self);
            lemma_entries_partial(self.in_flight@);
        }
        let ghost old_map = self@;
        let mut entries: Vec<PartialMessage> = Vec::new();
        std::mem::swap(&mut entries, &mut self.in_flight);
        proof {
            lemma_entries_map(entries@);
        }
        match find_entry(&entries, id) {
            Some(j) => {
                proof {
                    lemma_remove_entry(entries@, j as int);
                }
                let _ = entries.remove(j);
            },
            None => {
                assert(old_map.remove(id@) =~= old_map);
            },
        }
        self.in_flight = entries;
    }
}

impl Default for Reassembler {
    fn default() -> (r: Self)
        ensures
            r@ == InFlight::empty(),
    {
        Reassembler::new()
    }
}

fn ids_equal(a: &MessageId, b: &MessageId) -> (r: bool)
    ensures
        r == (a@ == b@),
{
    let mut i: usize = 0;
    while i < 16
        invariant
            i <= 16,
            forall|j: int| 0 <= j < i ==> a@[j] == b@[j],
        decreases 16 - i,
    {
        if a[i] != b[i] {
            return false;
        }
        i = i + 1;
    }
    assert(a@ =~= b@);
    true
}

fn find_entry(entries: &Vec<PartialMessage>, id: &MessageId) -> (r: Option<usize>)
    ensures
        r matches Some(j) ==> j < entries@.len() && entries@[j as int].id@ == id@,
        r is None ==> forall|j: int| 0 <= j < entries@.len() ==> entries@[j].id@ != id@,
{
    let mut j: usize = 0;
    while j < entries.len()
        invariant
            j <= entries@.len(),
            forall|k: int| 0 <= k < j ==> entries@[k].id@ != id@,
        decreases entries@.len() - j,
    {
        if ids_equal(&entries[j].id, id) {
            return Some(j);
        }
        j = j + 1;
    }
    None
}

fn empty_fragments(n: u16) -> (r: Vec<Option<Vec<u8>>>)
    ensures
        r@.len() == n,
        r@.map_values(|o: Option<Vec<u8>>| slot_view(o)) == empty_slots(n as nat),
{
    let mut v: Vec<Option<Vec<u8>>> = Vec::new();
    let mut i: u16 = 0;
    while i < n
        invariant
            i <= n,
            v@.len() == i,
            forall|k: int| 0 <= k < i ==> v@[k] is None,
        decreases n - i,
    {
        v.push(None);
        i = i + 1;
    }
    assert(v@.map_values(|o: Option<Vec<u8>>| slot_view(o)) =~= empty_slots(n as nat));
    v
}

fn join_fragments(fragments: &Vec<Option<Vec<u8>>>) -> (r: Vec<u8>)
    ensures
        r@ == join_slots(fragments@.map_values(|o: Option<Vec<u8>>| slot_view(o))),
{
    let ghost s = fragments@.map_values(|o: Option<Vec<u8>>| slot_view(o));
    let mut message: Vec<u8> = Vec::new();
    let mut k: usize = 0;
    while k < fragments.len()
        invariant
            k <= fragments@.len(),
            s == fragments@.map_values(|o: Option<Vec<u8>>| slot_view(o)),
            message@ == join_slots(s.take(k as int)),
        decreases fragments@.len() - k,
    {
        assert(s.take(k + 1).drop_last() =~= s.take(k as int));
        match &fragments[k] {
            Some(data) => {
                append_bytes(&mut message, data.as_slice());
            },
            None => {},
        }
        k = k + 1;
    }
    assert(s.take(fragments@.len() as int) =~= s);
    message
}

proof fn lemma_filled_count_empty(n: nat)
    ensures
        filled_count(empty_slots(n)) == 0,
    decreases n,
{
    if n > 0 {
        assert(empty_slots(n).drop_last() =~= empty_slots((n - 1) as nat));
        lemma_filled_count_empty((n - 1) as nat);
    }
}

proof fn lemma_filled_count_bound(s: Slots)
    ensures
        filled_count(s) <= s.len(),
        filled_count(s) == s.len() <==> all_filled(s),
    decreases s.len(),
{
    if s.len() > 0 {
        lemma_filled_count_bound(s.drop_last());
        if all_filled(s) {
            assert(all_filled(s.drop_last()));
        }
        if filled_count(s) == s.len() {
            assert forall|i: int| 0 <= i < s.len() implies (#[trigger] s[i]) is Some by {
                if i < s.len() - 1 {
                    assert(s.drop_last()[i] == s[i]);
                }
            }
        }
    }
}

proof fn lemma_filled_count_update(s: Slots, i: int, d: Seq<u8>)
    requires
        0 <= i < s.len(),
        s[i] is None,
    ensures
        filled_count(s.update(i, Some(d))) == filled_count(s) + 1,
    decreases s.len(),
{
    let t = s.update(i, Some(d));
    if i == s.len() - 1 {
        assert(t.drop_last() =~= s.drop_last());
    } else {
        assert(t.drop_last() =~= s.drop_last().update(i, Some(d)));
        lemma_filled_count_update(s.drop_last(), i, d);
    }
}

/// With distinct ids, the map holds exactly the entries' ids, each with
/// its entry's slots, and has one key per entry.
proof fn lemma_entries_map(es: Seq<PartialMessage>)
    requires
        distinct_ids(es),
    ensures
        forall|j: int|
            0 <= j < es.len() ==> entries_map(es).contains_key(#[trigger] es[j].id@)
                && entries_map(es)[es[j].id@] == entry_slots(es[j]),
        forall|id: Seq<u8>|
            #[trigger] entries_map(es).contains_key(id) ==> exists|j: int|
                0 <= j < es.len() && es[j].id@ == id,
        entries_map(es).dom().finite(),
        entries_map(es).len() == es.len(),
    decreases es.len(),
{
    if es.len() > 0 {
        let prefix = es.drop_last();
        assert(distinct_ids(prefix));
        lemma_entries_map(prefix);
        let last = es.last();
        let m = entries_map(es);
        assert forall|j: int| 0 <= j < es.len() implies m.contains_key(#[trigger] es[j].id@)
            && m[es[j].id@] == entry_slots(es[j]) by {
            if j < es.len() - 1 {
                assert(prefix[j] == es[j]);
                assert(es[j].id@ != last.id@);
            }
        }
        assert forall|id: Seq<u8>| #[trigger] m.contains_key(id) implies exists|j: int|
            0 <= j < es.len() && es[j].id@ == id by {
            if id != last.id@ {
                assert(entries_map(prefix).contains_key(id));
                let j = choose|j: int| 0 <= j < prefix.len() && prefix[j].id@ == id;
                assert(es[j] == prefix[j]);
            } else {
                assert(es[es.len() - 1].id@ == id);
            }
        }
        if entries_map(prefix).contains_key(last.id@) {
            let j = choose|j: int| 0 <= j < prefix.len() && prefix[j].id@ == last.id@;
            assert(prefix[j] == es[j]);
        }
    }
}

/// Removing an entry removes its id from the map.
proof fn lemma_remove_entry(es: Seq<PartialMessage>, j: int)
    requires
        distinct_ids(es),
        0 <= j < es.len(),
    ensures
        distinct_ids(es.remove(j)),
        entries_map(es.remove(j)) == entries_map(es).remove(es[j].id@),
        forall|k: int| 0 <= k < es.remove(j).len() ==> exists|l: int|
            0 <= l < es.len() && l != j && #[trigger] es.remove(j)[k] == es[l],
{
    let rest = es.remove(j);
    let id = es[j].id@;
    assert forall|k: int| 0 <= k < rest.len() implies exists|l: int|
        0 <= l < es.len() && l != j && #[trigger] rest[k] == es[l] by {
        if k < j {
            assert(rest[k] == es[k]);
        } else {
            assert(rest[k] == es[k + 1]);
        }
    }
    assert forall|a: int, b: int| 0 <= a < b < rest.len() implies rest[a].id@ != rest[b].id@ by {
        let la = if a < j {
            a
        } else {
            a + 1
        };
        let lb = if b < j {
            b
        } else {
            b + 1
        };
        assert(rest[a] == es[la]);
        assert(rest[b] == es[lb]);
    }
    lemma_entries_map(es);
    lemma_entries_map(rest);
    let m = entries_map(es);
    let m2 = entries_map(rest);
    assert forall|k: Seq<u8>| #[trigger] m2.contains_key(k) <==> m.remove(id).contains_key(k) by {
        if m2.contains_key(k) {
            let a = choose|a: int| 0 <= a < rest.len() && rest[a].id@ == k;
            let la = if a < j {
                a
            } else {
                a + 1
            };
            assert(rest[a] == es[la]);
        }
        if m.remove(id).contains_key(k) {
            let l = choose|l: int| 0 <= l < es.len() && es[l].id@ == k;
            assert(l != j);
            let a = if l < j {
                l
            } else {
                l - 1
            };
            assert(rest[a] == es[l]);
        }
    }
    assert forall|k: Seq<u8>| #[trigger] m2.contains_key(k) implies m2[k] == m.remove(id)[k] by {
        let a = choose|a: int| 0 <= a < rest.len() && rest[a].id@ == k;
        let la = if a < j {
            a
        } else {
            a + 1
        };
        assert(rest[a] == es[la]);
    }
    assert(m2 =~= m.remove(id));
}

/// Pushing an entry with a fresh id adds that id to the map.
proof fn lemma_push_entry(es: Seq<PartialMessage>, e: PartialMessage)
    requires
        distinct_ids(es),
        !entries_map(es).contains_key(e.id@),
    ensures
        distinct_ids(es.push(e)),
        entries_map(es.push(e)) == entries_map(es).insert(e.id@, entry_slots(e)),
{
    lemma_entries_map(es);
    let es2 = es.push(e);
    assert(es2.drop_last() =~= es);
    assert forall|a: int, b: int| 0 <= a < b < es2.len() implies es2[a].id@ != es2[b].id@ by {
        assert(es2[a] == es[a]);
        if b < es.len() {
            assert(es2[b] == es[b]);
        }
    }
}

/// Entries in flight give a state in which every message is partial.
proof fn lemma_entries_partial(es: Seq<PartialMessage>)
    requires
        distinct_ids(es),
        forall|j: int| 0 <= j < es.len() ==> entry_wf(#[trigger] es[j]),
    ensures
        in_flight_wf(entries_map(es)),
{
    lemma_entries_map(es);
    let m = entries_map(es);
    assert forall|id: Seq<u8>| #[trigger] m.contains_key(id) implies 1 <= filled_count(m[id])
        && !all_filled(m[id]) by {
        let j = choose|j: int| 0 <= j < es.len() && es[j].id@ == id;
        assert(entry_wf(es[j]));
        lemma_filled_count_bound(entry_slots(es[j]));
    }
}

/// Inserting a well-formed cell keeps every message in flight partial,
/// leaves the messages under other ids as they were, and changes the
/// number of messages in flight by one at most: one more when a new
/// message stays incomplete, one fewer when a message in flight
/// completes, the same otherwise.
pub proof fn lemma_insert_keeps_in_flight_wf(state: InFlight, c: CellView)
    requires
        in_flight_wf(state),
        c.wf(),
    ensures
        ({
            let (next, out) = spec_insert(state, c);
            let id = c.message_id;
            &&& in_flight_wf(next)
            &&& forall|other: Seq<u8>|
                other != id ==> (#[trigger] next.contains_key(other) == state.contains_key(other)
                    && next[other] == state[other])
            &&& next.len() as int == if !state.contains_key(id) && out == Ok::<
                Option<Seq<u8>>,
                VeilError,
            >(None) {
                state.len() + 1int
            } else if state.contains_key(id) && out is Ok && out->Ok_0 is Some {
                state.len() - 1int
            } else {
                state.len() as int
            }
        }),
{
    let id = c.message_id;
    let slots = if state.contains_key(id) {
        state[id]
    } else {
        empty_slots(c.seq_total as nat)
    };
    let (next, out) = spec_insert(state, c);
    if slots.len() == c.seq_total {
        let idx = c.seq_index as int;
        let filled = if slots[idx] is None {
            slots.update(idx, Some(c.data()))
        } else {
            slots
        };
        if !state.contains_key(id) {
            lemma_filled_count_empty(c.seq_total as nat);
            lemma_filled_count_update(slots, idx, c.data());
        } else if slots[idx] is None {
            lemma_filled_count_update(slots, idx, c.data());
        }
        if all_filled(filled) {
            if !state.contains_key(id) {
                assert(state.remove(id) =~= state);
            }
        }
    }
}

/// A fragment that the reassembler already holds changes nothing when it
/// comes again: the first copy is kept, the message stays incomplete,
/// and the insertion reports `Ok(None)`.
pub proof fn lemma_repeated_fragment_changes_nothing(state: InFlight, c: CellView)
    requires
        in_flight_wf(state),
        c.wf(),
        state.contains_key(c.message_id),
        state[c.message_id].len() == c.seq_total,
        state[c.message_id][c.seq_index as int] is Some,
    ensures
        spec_insert(state, c) == (state, Ok::<Option<Seq<u8>>, VeilError>(None)),
{
    assert(state.insert(c.message_id, state[c.message_id]) =~= state);
}

} // verus!
