//! Splits arbitrary-length messages into fixed-size [`Cell`]s.

use vstd::prelude::*;
use rand::rngs::OsRng;

use crate::cell::{spec_new_data, Cell, CellView, MessageId, PAYLOAD_CAPACITY};
use crate::error::{VeilError, VeilResult};
use crate::primitives::fill_random;

verus! {

/// Largest message this crate fragments: the cell count must stay within
/// what a `u16` sequence counter addresses (65,535 cells).
pub const MAX_MESSAGE_SIZE: usize = PAYLOAD_CAPACITY * 65535;

/// How many cells a message of `len` bytes needs.
pub open spec fn chunk_count(len: nat) -> nat {
    ((len + PAYLOAD_CAPACITY - 1) / (PAYLOAD_CAPACITY as int)) as nat
}

/// The `i`-th chunk of `m`: up to [`PAYLOAD_CAPACITY`] bytes starting at
/// `i * PAYLOAD_CAPACITY`.
pub open spec fn chunk(m: Seq<u8>, i: int) -> Seq<u8> {
    let start = i * PAYLOAD_CAPACITY;
    let end = if start + PAYLOAD_CAPACITY <= m.len() {
        start + PAYLOAD_CAPACITY
    } else {
        m.len() as int
    };
    m.subrange(start, end)
}

/// The `i`-th cell of message `m` under message id `id`.
pub open spec fn spec_fragment_cell(m: Seq<u8>, id: Seq<u8>, i: int) -> CellView {
    spec_new_data(id, i as u16, chunk_count(m.len()) as u16, chunk(m, i))->Ok_0
}

/// The cells that carry message `m` under message id `id`, in order.
pub open spec fn spec_fragments(m: Seq<u8>, id: Seq<u8>) -> Seq<CellView> {
    Seq::new(chunk_count(m.len()), |i: int| spec_fragment_cell(m, id, i))
}

/// The views of a sequence of cells.
pub open spec fn cell_views(cells: Seq<Cell>) -> Seq<CellView> {
    cells.map_values(|c: Cell| c@)
}

/// The payloads of a sequence of cells, concatenated in order.
pub open spec fn concat_data(cells: Seq<CellView>) -> Seq<u8>
    decreases cells.len(),
{
    if cells.len() == 0 {
        Seq::empty()
    } else {
        concat_data(cells.drop_last()) + cells.last().data()
    }
}

/// Splits a message into cells of identical size.
///
/// Every cell is exactly [`crate::cell::CELL_SIZE`] bytes once
/// serialized, whatever the message length; only the cell count differs.
/// One random message id, shared by all the cells, lets the receiver
/// group cells that arrive out of order or interleaved with other
/// traffic. An empty message, or one above [`MAX_MESSAGE_SIZE`], is
/// refused.
pub fn fragment_message(message: &[u8], rng: &mut OsRng) -> (r: VeilResult<Vec<Cell>>)
    ensures
        message@.len() == 0 ==> r == Err::<Vec<Cell>, VeilError>(
            VeilError::MessageTooLarge { len: 0, max: MAX_MESSAGE_SIZE },
        ),
        message@.len() > MAX_MESSAGE_SIZE ==> r == Err::<Vec<Cell>, VeilError>(
            VeilError::MessageTooLarge { len: message@.len() as usize, max: MAX_MESSAGE_SIZE },
        ),
        0 < message@.len() <= MAX_MESSAGE_SIZE ==> (r matches Ok(cells) && cells@.len() > 0
            && cells@[0]@.message_id.len() == 16 && cell_views(cells@) == spec_fragments(
            message@,
            cells@[0]@.message_id,
        )),
{
    if message.len() == 0 {
        return Err(VeilError::MessageTooLarge { len: 0, max: MAX_MESSAGE_SIZE });
    }
    if message.len() > MAX_MESSAGE_SIZE {
        return Err(VeilError::MessageTooLarge { len: message.len(), max: MAX_MESSAGE_SIZE });
    }
    let mut message_id: MessageId = [0u8; 16];
    fill_random(rng, &mut message_id);
    let total_cells = (message.len() + (PAYLOAD_CAPACITY - 1)) / PAYLOAD_CAPACITY;
    let seq_total = total_cells as u16;
    let ghost m = message@;
    let ghost id = message_id@;
    let mut cells: Vec<Cell> = Vec::with_capacity(total_cells);
    let mut i: usize = 0;
    let mut start: usize = 0;
    while i < total_cells
        invariant
            0 < m.len() <= MAX_MESSAGE_SIZE,
            m == message@,
            id == message_id@,
            total_cells == chunk_count(m.len()),
            seq_total == total_cells,
            i <= total_cells,
            start == i * PAYLOAD_CAPACITY,
            cells@.len() == i,
            forall|j: int| 0 <= j < i ==> cells@[j]@ == spec_fragment_cell(m, id, j),
        decreases total_cells - i,
    {
        proof {
            lemma_chunk_starts_inside(m.len() as int, i as int);
        }
        let end = if start + PAYLOAD_CAPACITY <= message.len() {
            start + PAYLOAD_CAPACITY
        } else {
            message.len()
        };
        let cell = match Cell::new_data(message_id, i as u16, seq_total, &message[start..end]) {
            Ok(c) => c,
            Err(e) => {
                return Err(e);
            },
        };
        cells.push(cell);
        proof {
            assert((i + 1) * PAYLOAD_CAPACITY == i * PAYLOAD_CAPACITY + PAYLOAD_CAPACITY) by (nonlinear_arith);
        }
        i = i + 1;
        start = start + PAYLOAD_CAPACITY;
    }
    proof {
        lemma_chunk_starts_inside(m.len() as int, 0);
    }
    assert(cells@[0]@ == spec_fragment_cell(m, id, 0));
    assert(cell_views(cells@) =~= spec_fragments(m, id));
    Ok(cells)
}

/// Every chunk position before the cell count starts inside the message.
proof fn lemma_chunk_starts_inside(len: int, i: int)
    requires
        0 < len,
        0 <= i < chunk_count(len as nat),
    ensures
        i * PAYLOAD_CAPACITY < len,
        len <= chunk_count(len as nat) * PAYLOAD_CAPACITY,
{
    let n = chunk_count(len as nat) as int;
    assert(n == (len + 487) / 488);
    assert(i * 488 < len) by (nonlinear_arith)
        requires
            0 <= i < n,
            n == (len + 487) / 488,
            0 < len,
    ;
    assert(len <= n * 488) by (nonlinear_arith)
        requires
            n == (len + 487) / 488,
            0 < len,
    ;
}

/// The cells of a message carry its bytes: all share its id and its cell
/// count, each sits at its own position, and their payloads, joined in
/// order, are the message.
pub proof fn lemma_fragments_carry_message(m: Seq<u8>, id: Seq<u8>)
    requires
        0 < m.len() <= MAX_MESSAGE_SIZE,
        id.len() == 16,
    ensures
        spec_fragments(m, id).len() == chunk_count(m.len()),
        forall|i: int|
            0 <= i < chunk_count(m.len()) ==> {
                let c = #[trigger] spec_fragments(m, id)[i];
                &&& c.wf()
                &&& c.message_id == id
                &&& c.seq_total == chunk_count(m.len())
                &&& c.seq_index == i
                &&& c.data() == chunk(m, i)
            },
        concat_data(spec_fragments(m, id)) == m,
{
    let n = chunk_count(m.len());
    let cs = spec_fragments(m, id);
    assert forall|i: int| 0 <= i < n implies {
        let c = #[trigger] cs[i];
        &&& c.wf()
        &&& c.message_id == id
        &&& c.seq_total == n
        &&& c.seq_index == i
        &&& c.data() == chunk(m, i)
    } by {
        lemma_chunk_starts_inside(m.len() as int, i);
        let d = chunk(m, i);
        assert(d.len() <= PAYLOAD_CAPACITY);
        let c = cs[i];
        assert(c.payload.take(d.len() as int) =~= d);
    }
    lemma_concat_prefix(m, id, n as int);
    assert(cs.take(n as int) =~= cs);
    assert(m.subrange(0, m.len() as int) =~= m);
}

/// The payloads of the first `k` cells of `m`, joined, are the first
/// `k` chunks of `m`.
proof fn lemma_concat_prefix(m: Seq<u8>, id: Seq<u8>, k: int)
    requires
        0 < m.len() <= MAX_MESSAGE_SIZE,
        id.len() == 16,
        0 <= k <= chunk_count(m.len()),
    ensures
        concat_data(spec_fragments(m, id).take(k)) == m.subrange(
            0,
            if k * PAYLOAD_CAPACITY <= m.len() {
                k * PAYLOAD_CAPACITY
            } else {
                m.len() as int
            },
        ),
    decreases k,
{
    let cs = spec_fragments(m, id);
    if k == 0 {
        assert(cs.take(0) =~= Seq::<CellView>::empty());
        assert(m.subrange(0, 0) =~= Seq::<u8>::empty());
    } else {
        lemma_concat_prefix(m, id, k - 1);
        assert(cs.take(k).drop_last() =~= cs.take(k - 1));
        lemma_chunk_starts_inside(m.len() as int, k - 1);
        let c = cs[k - 1];
        assert(c == spec_fragment_cell(m, id, k - 1));
        let d = chunk(m, k - 1);
        assert(d.len() <= PAYLOAD_CAPACITY);
        assert(c.payload.take(d.len() as int) =~= d);
        assert(c.data() == d);
        let prev_end = (k - 1) * PAYLOAD_CAPACITY;
        assert(prev_end <= m.len());
        let end = if k * PAYLOAD_CAPACITY <= m.len() {
            k * PAYLOAD_CAPACITY
        } else {
            m.len() as int
        };
        assert(m.subrange(0, prev_end) + m.subrange(prev_end, end) =~= m.subrange(0, end));
    }
}

} // verus!
