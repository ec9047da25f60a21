//! Fixed-size cell format used throughout the relay fabric.
//!
//! Every message is fragmented into cells of identical size before
//! entering the network. An observer watching the wire cannot tell cells
//! apart by size, however large or small the original message was, and
//! cannot tell real data cells from dummy cover traffic without the
//! decryption key.

use vstd::prelude::*;
use rand::rngs::OsRng;

use crate::error::{VeilError, VeilResult};
use crate::primitives::fill_random;

verus! {

/// Total size, in bytes, of a single cell on the wire in its plaintext
/// (pre-encryption) form. Identical for every cell, real or dummy.
pub const CELL_SIZE: usize = 512;

/// Size of the fixed cell header: version(1) + cell_type(1) +
/// message_id(16) + seq_index(2) + seq_total(2) + payload_len(2).
pub const HEADER_SIZE: usize = 24;

/// Maximum number of real payload bytes a single cell can carry.
pub const PAYLOAD_CAPACITY: usize = CELL_SIZE - HEADER_SIZE;

/// Current wire protocol version.
pub const PROTOCOL_VERSION: u8 = 1;

/// Whether a cell carries real application data or is cover traffic.
#[derive(Debug, Clone, Copy, PartialEq, Eq, Structural)]
pub enum CellType {
    Data,
    Dummy,
}

/// The wire byte of a cell type: 0 for data, 1 for dummy.
pub open spec fn cell_type_byte(t: CellType) -> u8 {
    match t {
        CellType::Data => 0,
        CellType::Dummy => 1,
    }
}

/// The cell type a wire byte names, or the error for any other byte.
pub open spec fn spec_cell_type_from_byte(v: u8) -> Result<CellType, VeilError> {
    if v == 0 {
        Ok(CellType::Data)
    } else if v == 1 {
        Ok(CellType::Dummy)
    } else {
        Err(VeilError::InvalidCellType(v))
    }
}

impl CellType {
    fn from_u8(v: u8) -> (r: VeilResult<Self>)
        ensures
            r == spec_cell_type_from_byte(v),
    {
        match v {
            0 => Ok(CellType::Data),
            1 => Ok(CellType::Dummy),
            other => Err(VeilError::InvalidCellType(other)),
        }
    }

    fn to_u8(self) -> (r: u8)
        ensures
            r == cell_type_byte(self),
    {
        match self {
            CellType::Data => 0,
            CellType::Dummy => 1,
        }
    }
}

/// Groups all cells of one original message.
pub type MessageId = [u8; 16];

/// Big-endian encoding of a 16-bit integer.
pub open spec fn be16(v: u16) -> Seq<u8> {
    seq![(v / 256) as u8, (v % 256) as u8]
}

/// The 16-bit integer whose big-endian encoding is `hi, lo`.
pub open spec fn from_be16(hi: u8, lo: u8) -> u16 {
    (hi * 256 + lo) as u16
}

/// `n` zero bytes.
pub open spec fn zeros(n: nat) -> Seq<u8> {
    Seq::new(n, |i: int| 0u8)
}

/// The fields of a cell, as plain values.
pub struct CellView {
    pub version: u8,
    pub cell_type: CellType,
    pub message_id: Seq<u8>,
    pub seq_index: u16,
    pub seq_total: u16,
    pub payload_len: u16,
    pub payload: Seq<u8>,
}

impl CellView {
    /// What every cell satisfies: the current version, a 16-byte id, a
    /// full-size payload area whose used prefix fits in it, and a
    /// sequence position inside its sequence.
    pub open spec fn wf(self) -> bool {
        &&& self.version == PROTOCOL_VERSION
        &&& self.message_id.len() == 16
        &&& self.payload.len() == PAYLOAD_CAPACITY
        &&& self.payload_len <= PAYLOAD_CAPACITY
        &&& 0 < self.seq_total
        &&& self.seq_index < self.seq_total
    }

    /// The real payload bytes, without trailing padding.
    pub open spec fn data(self) -> Seq<u8> {
        self.payload.take(self.payload_len as int)
    }
}

/// The 512-byte wire form of a cell.
pub open spec fn spec_cell_bytes(c: CellView) -> Seq<u8> {
    seq![c.version, cell_type_byte(c.cell_type)] + c.message_id + be16(c.seq_index) + be16(
        c.seq_total,
    ) + be16(c.payload_len) + c.payload
}

/// What parsing the 512 bytes `b` gives: the checks run in the order
/// version, cell type, payload length, sequence.
pub open spec fn spec_parse_cell(b: Seq<u8>) -> Result<CellView, VeilError> {
    let seq_index = from_be16(b[18], b[19]);
    let seq_total = from_be16(b[20], b[21]);
    let payload_len = from_be16(b[22], b[23]);
    if b[0] != PROTOCOL_VERSION {
        Err(VeilError::UnsupportedVersion(b[0]))
    } else if spec_cell_type_from_byte(b[1]) is Err {
        Err(VeilError::InvalidCellType(b[1]))
    } else if payload_len > PAYLOAD_CAPACITY {
        Err(VeilError::PayloadTooLarge { len: payload_len as usize, max: PAYLOAD_CAPACITY })
    } else if seq_total == 0 || seq_index >= seq_total {
        Err(VeilError::InvalidSequence { seq_index, seq_total })
    } else {
        Ok(
            CellView {
                version: b[0],
                cell_type: spec_cell_type_from_byte(b[1])->Ok_0,
                message_id: b.subrange(2, 18),
                seq_index,
                seq_total,
                payload_len,
                payload: b.subrange(HEADER_SIZE as int, CELL_SIZE as int),
            },
        )
    }
}

/// What `Cell::new_data` gives for these arguments.
pub open spec fn spec_new_data(
    message_id: Seq<u8>,
    seq_index: u16,
    seq_total: u16,
    data: Seq<u8>,
) -> Result<CellView, VeilError> {
    if data.len() > PAYLOAD_CAPACITY {
        Err(VeilError::PayloadTooLarge { len: data.len() as usize, max: PAYLOAD_CAPACITY })
    } else if seq_total == 0 || seq_index >= seq_total {
        Err(VeilError::InvalidSequence { seq_index, seq_total })
    } else {
        Ok(
            CellView {
                version: PROTOCOL_VERSION,
                cell_type: CellType::Data,
                message_id,
                seq_index,
                seq_total,
                payload_len: data.len() as u16,
                payload: data + zeros((PAYLOAD_CAPACITY - data.len()) as nat),
            },
        )
    }
}

/// A single fixed-size cell, the atomic unit of transport.
///
/// Every cell, real or dummy, serializes to exactly [`CELL_SIZE`] bytes.
#[derive(Debug, Clone, Copy)]
pub struct Cell {
    version: u8,
    cell_type: CellType,
    message_id: MessageId,
    seq_index: u16,
    seq_total: u16,
    payload_len: u16,
    payload: [u8; PAYLOAD_CAPACITY],
}

impl View for Cell {
    type V = CellView;

    closed spec fn view(&self) -> CellView {
        CellView {
            version: self.version,
            cell_type: self.cell_type,
            message_id: self.message_id@,
            seq_index: self.seq_index,
            seq_total: self.seq_total,
            payload_len: self.payload_len,
            payload: self.payload@,
        }
    }
}

/// Whether `r` is the executable form of the specified outcome `s`.
pub open spec fn cell_result_is(r: VeilResult<Cell>, s: Result<CellView, VeilError>) -> bool {
    match s {
        Ok(v) => r matches Ok(c) && c@ == v,
        Err(e) => r == Err::<Cell, VeilError>(e),
    }
}

impl Cell {
    #[verifier::type_invariant]
    pub open spec fn well_formed(self) -> bool {
        self@.wf()
    }

    /// Constructs a data cell carrying one fragment of a larger message.
    ///
    /// `data` must fit within [`PAYLOAD_CAPACITY`] bytes and the sequence
    /// position must lie inside a non-empty sequence.
    pub fn new_data(message_id: MessageId, seq_index: u16, seq_total: u16, data: &[u8]) -> (r:
        VeilResult<Self>)
        ensures
            cell_result_is(r, spec_new_data(message_id@, seq_index, seq_total, data@)),
    {
        if data.len() > PAYLOAD_CAPACITY {
            return Err(VeilError::PayloadTooLarge { len: data.len(), max: PAYLOAD_CAPACITY });
        }
        if seq_total == 0 || seq_index >= seq_total {
            return Err(VeilError::InvalidSequence { seq_index, seq_total });
        }
        let mut payload = [0u8; PAYLOAD_CAPACITY];
        let mut i: usize = 0;
        while i < data.len()
            invariant
                i <= data.len() <= PAYLOAD_CAPACITY,
                payload@.len() == PAYLOAD_CAPACITY,
                forall|j: int| 0 <= j < i ==> payload@[j] == data@[j],
                forall|j: int| data.len() <= j < PAYLOAD_CAPACITY ==> payload@[j] == 0u8,
            decreases data.len() - i,
        {
            payload[i] = data[i];
            i = i + 1;
        }
        let cell = Cell {
            version: PROTOCOL_VERSION,
            cell_type: CellType::Data,
            message_id,
            seq_index,
            seq_total,
            payload_len: data.len() as u16,
            payload,
        };
        assert(cell@.payload =~= data@ + zeros((PAYLOAD_CAPACITY - data.len()) as nat));
        Ok(cell)
    }

    /// Constructs a dummy cell whose id and payload are random bytes.
    ///
    /// Dummy cells share the size, header layout and encryption of data
    /// cells, so nobody without the key can tell them apart.
    pub fn new_dummy(rng: &mut OsRng) -> (r: Self)
        ensures
            r@.wf(),
            r@.cell_type == CellType::Dummy,
            r@.seq_index == 0,
            r@.seq_total == 1,
            r@.payload_len == PAYLOAD_CAPACITY,
    {
        let mut message_id = [0u8; 16];
        fill_random(rng, &mut message_id);
        let mut payload = [0u8; PAYLOAD_CAPACITY];
        fill_random(rng, &mut payload);
        Cell {
            version: PROTOCOL_VERSION,
            cell_type: CellType::Dummy,
            message_id,
            seq_index: 0,
            seq_total: 1,
            payload_len: PAYLOAD_CAPACITY as u16,
            payload,
        }
    }

    pub fn cell_type(&self) -> (r: CellType)
        ensures
            r == self@.cell_type,
    {
        self.cell_type
    }

    pub fn message_id(&self) -> (r: MessageId)
        ensures
            r@ == self@.message_id,
    {
        self.message_id
    }

    pub fn seq_index(&self) -> (r: u16)
        ensures
            r == self@.seq_index,
    {
        self.seq_index
    }

    pub fn seq_total(&self) -> (r: u16)
        ensures
            r == self@.seq_total,
    {
        self.seq_total
    }

    /// The real payload bytes only, without trailing padding.
    pub fn payload(&self) -> (r: &[u8])
        ensures
            r@ == self@.data(),
    {
        proof {
            use_type_invariant(self);
        }
        let n = self.payload_len as usize;
        &self.payload[0..n]
    }

    /// Serializes this cell into its fixed-size wire form.
    pub fn to_bytes(&self) -> (r: [u8; CELL_SIZE])
        ensures
            r@ == spec_cell_bytes(self@),
    {
        proof {
            use_type_invariant(self);
        }
        let mut buf = [0u8; CELL_SIZE];
        buf[0] = self.version;
        buf[1] = self.cell_type.to_u8();
        let mut i: usize = 0;
        while i < 16
            invariant
                i <= 16,
                buf@.len() == CELL_SIZE,
                buf@[0] == self.version,
                buf@[1] == cell_type_byte(self.cell_type),
                forall|j: int| 0 <= j < i ==> buf@[2 + j] == self.message_id@[j],
            decreases 16 - i,
        {
            buf[2 + i] = self.message_id[i];
            i = i + 1;
        }
        buf[18] = (self.seq_index / 256) as u8;
        buf[19] = (self.seq_index % 256) as u8;
        buf[20] = (self.seq_total / 256) as u8;
        buf[21] = (self.seq_total % 256) as u8;
        buf[22] = (self.payload_len / 256) as u8;
        buf[23] = (self.payload_len % 256) as u8;
        let mut k: usize = 0;
        while k < PAYLOAD_CAPACITY
            invariant
                k <= PAYLOAD_CAPACITY,
                buf@.len() == CELL_SIZE,
                buf@[0] == self.version,
                buf@[1] == cell_type_byte(self.cell_type),
                forall|j: int| 0 <= j < 16 ==> buf@[2 + j] == self.message_id@[j],
                buf@[18] == (self.seq_index / 256) as u8,
                buf@[19] == (self.seq_index % 256) as u8,
                buf@[20] == (self.seq_total / 256) as u8,
                buf@[21] == (self.seq_total % 256) as u8,
                buf@[22] == (self.payload_len / 256) as u8,
                buf@[23] == (self.payload_len % 256) as u8,
                forall|j: int| 0 <= j < k ==> buf@[HEADER_SIZE + j] == self.payload@[j],
            decreases PAYLOAD_CAPACITY - k,
        {
            buf[HEADER_SIZE + k] = self.payload[k];
            k = k + 1;
        }
        assert(buf@ =~= spec_cell_bytes(self@));
        buf
    }

    /// Parses a cell from its fixed-size wire form.
    ///
    /// Checks the protocol version, the cell type, the payload length
    /// bound and the sequence fields before accepting the cell.
    pub fn from_bytes(buf: &[u8; CELL_SIZE]) -> (r: VeilResult<Self>)
        ensures
            cell_result_is(r, spec_parse_cell(buf@)),
    {
        let version = buf[0];
        if version != PROTOCOL_VERSION {
            return Err(VeilError::UnsupportedVersion(version));
        }
        let cell_type = match CellType::from_u8(buf[1]) {
            Ok(t) => t,
            Err(e) => return Err(e),
        };
        let mut message_id = [0u8; 16];
        let mut i: usize = 0;
        while i < 16
            invariant
                i <= 16,
                message_id@.len() == 16,
                buf@.len() == CELL_SIZE,
                forall|j: int| 0 <= j < i ==> message_id@[j] == buf@[2 + j],
            decreases 16 - i,
        {
            message_id[i] = buf[2 + i];
            i = i + 1;
        }
        let seq_index = (buf[18] as u16) * 256 + (buf[19] as u16);
        let seq_total = (buf[20] as u16) * 256 + (buf[21] as u16);
        let payload_len = (buf[22] as u16) * 256 + (buf[23] as u16);
        if payload_len as usize > PAYLOAD_CAPACITY {
            return Err(
                VeilError::PayloadTooLarge { len: payload_len as usize, max: PAYLOAD_CAPACITY },
            );
        }
        if seq_total == 0 || seq_index >= seq_total {
            return Err(VeilError::InvalidSequence { seq_index, seq_total });
        }
        let mut payload = [0u8; PAYLOAD_CAPACITY];
        let mut k: usize = 0;
        while k < PAYLOAD_CAPACITY
            invariant
                k <= PAYLOAD_CAPACITY,
                payload@.len() == PAYLOAD_CAPACITY,
                buf@.len() == CELL_SIZE,
                forall|j: int| 0 <= j < k ==> payload@[j] == buf@[HEADER_SIZE + j],
            decreases PAYLOAD_CAPACITY - k,
        {
            payload[k] = buf[HEADER_SIZE + k];
            k = k + 1;
        }
        let cell = Cell {
            version,
            cell_type,
            message_id,
            seq_index,
            seq_total,
            payload_len,
            payload,
        };
        assert(cell@.message_id =~= buf@.subrange(2, 18));
        assert(cell@.payload =~= buf@.subrange(HEADER_SIZE as int, CELL_SIZE as int));
        Ok(cell)
    }
}

/// Serializing a well-formed cell and parsing the bytes gives the same
/// cell back.
pub proof fn lemma_parse_inverts_serialize(c: CellView)
    requires
        c.wf(),
    ensures
        spec_cell_bytes(c).len() == CELL_SIZE,
        spec_parse_cell(spec_cell_bytes(c)) == Ok::<CellView, VeilError>(c),
{
    let b = spec_cell_bytes(c);
    assert(b.len() == CELL_SIZE);
    assert(b.subrange(2, 18) =~= c.message_id);
    assert(b.subrange(HEADER_SIZE as int, CELL_SIZE as int) =~= c.payload);
    assert(from_be16(b[18], b[19]) == c.seq_index);
    assert(from_be16(b[20], b[21]) == c.seq_total);
    assert(from_be16(b[22], b[23]) == c.payload_len);
}

/// Parsing accepted bytes and serializing the cell gives the same bytes
/// back: parsing drops nothing, not even the padding.
pub proof fn lemma_serialize_inverts_parse(b: Seq<u8>)
    requires
        b.len() == CELL_SIZE,
        spec_parse_cell(b) is Ok,
    ensures
        spec_parse_cell(b)->Ok_0.wf(),
        spec_cell_bytes(spec_parse_cell(b)->Ok_0) == b,
{
    let c = spec_parse_cell(b)->Ok_0;
    assert(be16(c.seq_index) =~= b.subrange(18, 20));
    assert(be16(c.seq_total) =~= b.subrange(20, 22));
    assert(be16(c.payload_len) =~= b.subrange(22, 24));
    assert(spec_cell_bytes(c) =~= b);
}

} // verus!
