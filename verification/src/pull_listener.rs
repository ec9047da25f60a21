//! The wire format of a relay's mailbox port
//! (`listen_addr.port() + 1000` by convention), which serves two
//! requests:
//!
//! ```text
//! PULL      client -> server: single byte, 0x01
//!           server -> client: 4-byte count, then that many
//!                              length-prefixed frames
//!
//! DESCRIBE  client -> server: single byte, 0x02
//!           server -> client: relay_id (2-byte len + UTF-8 bytes),
//!                              public_key (32 raw bytes),
//!                              main_addr (2-byte len + UTF-8 bytes)
//! ```
//! Either way the connection closes after one response. Neither request
//! is authenticated: PULL hands out ciphertext that only its recipient
//! can open, and DESCRIBE hands out what a topology publishes anyway.
//! The application owns the sockets; this module builds and reads the
//! bytes.

use vstd::prelude::*;
use vstd::utf8::{decode_utf8, encode_utf8, encode_utf8_decode_utf8, encode_utf8_valid_utf8, valid_utf8};

use crate::bytes::append_bytes;
use crate::cell::{be16, from_be16};
use crate::crypto::keys::PublicKey;
use crate::forwarding::{be32, frame_body_length, frame_header, from_be32, lemma_frame_length_roundtrip};
use crate::primitives::string_from_utf8;

verus! {

/// The request byte for PULL.
pub const PULL_REQUEST_BYTE: u8 = 0x01;

/// The request byte for DESCRIBE.
pub const DESCRIBE_REQUEST_BYTE: u8 = 0x02;

/// What a client asks the mailbox port for.
#[derive(Debug, PartialEq, Eq, Structural)]
pub enum MailboxRequest {
    Pull,
    Describe,
}

/// The request a byte names; any other byte names none, and the server
/// then closes the connection without answering.
pub fn parse_request(byte: u8) -> (r: Option<MailboxRequest>)
    ensures
        byte == PULL_REQUEST_BYTE ==> r == Some(MailboxRequest::Pull),
        byte == DESCRIBE_REQUEST_BYTE ==> r == Some(MailboxRequest::Describe),
        byte != PULL_REQUEST_BYTE && byte != DESCRIBE_REQUEST_BYTE ==> r is None,
{
    if byte == PULL_REQUEST_BYTE {
        Some(MailboxRequest::Pull)
    } else if byte == DESCRIBE_REQUEST_BYTE {
        Some(MailboxRequest::Describe)
    } else {
        None
    }
}

// ---------------------------------------------------------------------
// PULL
// ---------------------------------------------------------------------

/// A length-prefixed frame: the body's length as a big-endian `u32`
/// (taken modulo 2^32), then the body.
pub open spec fn spec_frame(body: Seq<u8>) -> Seq<u8> {
    be32((body.len() % 0x1_0000_0000) as u32) + body
}

/// The frames of `cells`, one after another.
pub open spec fn spec_frames(cells: Seq<Seq<u8>>) -> Seq<u8>
    decreases cells.len(),
{
    if cells.len() == 0 {
        Seq::empty()
    } else {
        spec_frames(cells.drop_last()) + spec_frame(cells.last())
    }
}

/// The answer to PULL: the number of cells as a big-endian `u32` (taken
/// modulo 2^32), then every cell as a frame, oldest first.
pub open spec fn spec_pull_response(cells: Seq<Seq<u8>>) -> Seq<u8> {
    be32((cells.len() % 0x1_0000_0000) as u32) + spec_frames(cells)
}

/// Reading `n` frames from the front of `b`; the bytes after them are
/// ignored. Nothing when `b` ends early.
pub open spec fn spec_read_frames(b: Seq<u8>, n: nat) -> Option<Seq<Seq<u8>>>
    decreases n,
{
    if n == 0 {
        Some(Seq::empty())
    } else if b.len() < 4 {
        None
    } else {
        let len = from_be32(b.take(4)) as int;
        let rest = b.skip(4);
        if rest.len() < len {
            None
        } else {
            match spec_read_frames(rest.skip(len), (n - 1) as nat) {
                Some(tail) => Some(seq![rest.take(len)] + tail),
                None => None,
            }
        }
    }
}

/// What a client reads from a PULL answer: the announced number of
/// frames, or nothing when the answer ends early.
pub open spec fn spec_parse_pull_response(b: Seq<u8>) -> Option<Seq<Seq<u8>>> {
    if b.len() < 4 {
        None
    } else {
        spec_read_frames(b.skip(4), from_be32(b.take(4)))
    }
}

/// The views of a list of byte buffers.
pub open spec fn buffer_views(cells: Seq<Vec<u8>>) -> Seq<Seq<u8>> {
    cells.map_values(|c: Vec<u8>| c@)
}

/// The answer to a PULL request that drained `cells` from the mailbox.
pub fn encode_pull_response(cells: &Vec<Vec<u8>>) -> (r: Vec<u8>)
    ensures
        r@ == spec_pull_response(buffer_views(cells@)),
{
    let ghost views = buffer_views(cells@);
    let count: u32 = ((cells.len() as u64) % 0x1_0000_0000u64) as u32;
    let mut out: Vec<u8> = Vec::new();
    out.push((count / 0x100_0000) as u8);
    out.push(((count / 0x1_0000) % 256) as u8);
    out.push(((count / 256) % 256) as u8);
    out.push((count % 256) as u8);
    assert(out@ =~= be32((views.len() % 0x1_0000_0000) as u32) + spec_frames(views.take(0)));
    let mut i: usize = 0;
    while i < cells.len()
        invariant
            i <= cells@.len(),
            views == buffer_views(cells@),
            out@ == be32((views.len() % 0x1_0000_0000) as u32) + spec_frames(views.take(i as int)),
        decreases cells@.len() - i,
    {
        let cell = &cells[i];
        let header = frame_header(cell.as_slice());
        append_bytes(&mut out, header.as_slice());
        append_bytes(&mut out, cell.as_slice());
        proof {
            assert(views.take(i + 1).drop_last() =~= views.take(i as int));
            assert(views.take(i + 1).last() == cell@);
        }
        i = i + 1;
        assert(out@ =~= be32((views.len() % 0x1_0000_0000) as u32) + spec_frames(
            views.take(i as int),
        ));
    }
    assert(views.take(cells@.len() as int) =~= views);
    out
}

/// `prefix` put in front of what a read gives.
pub open spec fn prepend_frames(prefix: Seq<Seq<u8>>, rest: Option<Seq<Seq<u8>>>) -> Option<
    Seq<Seq<u8>>,
> {
    match rest {
        Some(t) => Some(prefix + t),
        None => None,
    }
}

/// Reads a PULL answer: every announced frame, in order. Fails when the
/// answer ends before the last announced frame does.
pub fn parse_pull_response(bytes: &[u8]) -> (r: Option<Vec<Vec<u8>>>)
    ensures
        match spec_parse_pull_response(bytes@) {
            Some(cells) => r matches Some(v) && buffer_views(v@) == cells,
            None => r is None,
        },
{
    if bytes.len() < 4 {
        return None;
    }
    let count_header = [bytes[0], bytes[1], bytes[2], bytes[3]];
    assert(count_header@ =~= bytes@.take(4));
    let count = frame_body_length(&count_header);
    let mut pos: usize = 4;
    let mut k: usize = 0;
    let mut out: Vec<Vec<u8>> = Vec::new();
    while k < count
        invariant
            4 <= pos <= bytes@.len(),
            k <= count,
            count == from_be32(bytes@.take(4)),
            spec_parse_pull_response(bytes@) == prepend_frames(
                buffer_views(out@),
                spec_read_frames(bytes@.skip(pos as int), (count - k) as nat),
            ),
        decreases count - k,
    {
        let ghost b = bytes@.skip(pos as int);
        if bytes.len() - pos < 4 {
            return None;
        }
        let header = [bytes[pos], bytes[pos + 1], bytes[pos + 2], bytes[pos + 3]];
        assert(header@ =~= b.take(4));
        let len = frame_body_length(&header);
        if bytes.len() - pos - 4 < len {
            return None;
        }
        let start = pos + 4;
        let mut body: Vec<u8> = Vec::new();
        append_bytes(&mut body, &bytes[start..start + len]);
        proof {
            assert(b.skip(4).take(len as int) =~= body@);
            assert(b.skip(4).skip(len as int) =~= bytes@.skip(start + len));
            assert(buffer_views(out@.push(body)) =~= buffer_views(out@) + seq![body@]);
            assert(seq![body@] + Seq::<Seq<u8>>::empty() =~= seq![body@]);
            match spec_read_frames(bytes@.skip(start + len), (count - k - 1) as nat) {
                Some(t) => {
                    assert(buffer_views(out@) + (seq![body@] + t) =~= buffer_views(out@.push(body))
                        + t);
                },
                None => {},
            }
        }
        out.push(body);
        pos = start + len;
        k = k + 1;
    }
    assert(buffer_views(out@) + Seq::<Seq<u8>>::empty() =~= buffer_views(out@));
    Some(out)
}

/// The frames of `cells` start with the first cell's frame.
proof fn lemma_frames_front(cells: Seq<Seq<u8>>)
    requires
        cells.len() > 0,
    ensures
        spec_frames(cells) == spec_frame(cells[0]) + spec_frames(cells.drop_first()),
    decreases cells.len(),
{
    if cells.len() > 1 {
        lemma_frames_front(cells.drop_last());
        assert(cells.drop_last().drop_first() =~= cells.drop_first().drop_last());
        assert(cells.drop_first().last() == cells.last());
    } else {
        assert(cells.drop_last() =~= Seq::<Seq<u8>>::empty());
        assert(cells.drop_first() =~= Seq::<Seq<u8>>::empty());
    }
}

/// A frame written for `c` reads back as `c`, followed by what came
/// after it.
proof fn lemma_read_one_frame(c: Seq<u8>, after: Seq<u8>)
    requires
        c.len() < 0x1_0000_0000,
    ensures
        ({
            let b = spec_frame(c) + after;
            &&& b.len() >= 4
            &&& from_be32(b.take(4)) == c.len()
            &&& b.skip(4).len() >= c.len()
            &&& b.skip(4).take(c.len() as int) == c
            &&& b.skip(4).skip(c.len() as int) == after
        }),
{
    let b = spec_frame(c) + after;
    let len32 = (c.len() % 0x1_0000_0000) as u32;
    lemma_frame_length_roundtrip(len32);
    assert(b.take(4) =~= be32(len32));
    assert(b.skip(4) =~= c + after);
    assert(b.skip(4).take(c.len() as int) =~= c);
    assert(b.skip(4).skip(c.len() as int) =~= after);
}

/// Reading frames back from frames written for `cells` gives `cells`,
/// whatever follows them, as long as every length fits its field.
proof fn lemma_read_written_frames(cells: Seq<Seq<u8>>, trailing: Seq<u8>)
    requires
        forall|i: int| 0 <= i < cells.len() ==> (#[trigger] cells[i]).len() < 0x1_0000_0000,
    ensures
        spec_read_frames(spec_frames(cells) + trailing, cells.len()) == Some(cells),
    decreases cells.len(),
{
    if cells.len() == 0 {
        assert(cells =~= Seq::<Seq<u8>>::empty());
    } else {
        lemma_frames_front(cells);
        let c = cells[0];
        let rest = cells.drop_first();
        assert forall|i: int| 0 <= i < rest.len() implies (#[trigger] rest[i]).len() < 0x1_0000_0000 by {
            assert(rest[i] == cells[i + 1]);
        }
        lemma_read_written_frames(rest, trailing);
        let after = spec_frames(rest) + trailing;
        lemma_read_one_frame(c, after);
        assert(spec_frames(cells) + trailing =~= spec_frame(c) + after);
        assert(seq![c] + rest =~= cells);
    }
}

/// A client reads back exactly the cells that the mailbox drained, in
/// order, whatever follows the answer on the connection: the law of
/// PULL, for fewer than 2^32 cells of fewer than 2^32 bytes each.
pub proof fn lemma_pull_roundtrip(cells: Seq<Seq<u8>>, trailing: Seq<u8>)
    requires
        cells.len() < 0x1_0000_0000,
        forall|i: int| 0 <= i < cells.len() ==> (#[trigger] cells[i]).len() < 0x1_0000_0000,
    ensures
        spec_parse_pull_response(spec_pull_response(cells) + trailing) == Some(cells),
{
    let b = spec_pull_response(cells) + trailing;
    let len32 = (cells.len() % 0x1_0000_0000) as u32;
    lemma_frame_length_roundtrip(len32);
    assert(b.take(4) =~= be32(len32));
    assert(b.skip(4) =~= spec_frames(cells) + trailing);
    lemma_read_written_frames(cells, trailing);
}

// ---------------------------------------------------------------------
// DESCRIBE
// ---------------------------------------------------------------------

/// The identity a relay reports on DESCRIBE: all a client needs to add
/// the relay to a topology.
#[derive(Debug, Clone)]
pub struct RelayIdentity {
    pub id: String,
    pub public_key: PublicKey,
    pub main_addr: String,
}

/// A relay identity as plain values.
pub struct RelayIdentityView {
    pub id: Seq<char>,
    pub public_key: Seq<u8>,
    pub main_addr: Seq<char>,
}

impl View for RelayIdentity {
    type V = RelayIdentityView;

    open spec fn view(&self) -> RelayIdentityView {
        RelayIdentityView { id: self.id@, public_key: self.public_key@, main_addr: self.main_addr@ }
    }
}

/// Why a DESCRIBE answer could not be read.
#[derive(Debug, PartialEq, Eq, Structural)]
pub enum WireError {
    /// The answer ended early.
    Truncated,
    /// A string was not valid UTF-8.
    InvalidUtf8,
}

/// A string as the wire carries it: its UTF-8 length as a big-endian
/// `u16` (taken modulo 65536), then its UTF-8 bytes.
pub open spec fn spec_len_prefixed(s: Seq<char>) -> Seq<u8> {
    be16((encode_utf8(s).len() % 65536) as u16) + encode_utf8(s)
}

/// The answer to DESCRIBE.
pub open spec fn spec_describe_response(id: RelayIdentityView) -> Seq<u8> {
    spec_len_prefixed(id.id) + id.public_key + spec_len_prefixed(id.main_addr)
}

/// Reading a length-prefixed string from the front of `b`: the string
/// and the bytes after it.
pub open spec fn spec_read_string(b: Seq<u8>) -> Result<(Seq<char>, Seq<u8>), WireError> {
    if b.len() < 2 {
        Err(WireError::Truncated)
    } else {
        let len = from_be16(b[0], b[1]) as int;
        let rest = b.skip(2);
        if rest.len() < len {
            Err(WireError::Truncated)
        } else if !valid_utf8(rest.take(len)) {
            Err(WireError::InvalidUtf8)
        } else {
            Ok((decode_utf8(rest.take(len)), rest.skip(len)))
        }
    }
}

/// What a client reads from a DESCRIBE answer: the id, then 32 key
/// bytes, then the main address; the bytes after them are ignored.
pub open spec fn spec_parse_describe_response(b: Seq<u8>) -> Result<RelayIdentityView, WireError> {
    match spec_read_string(b) {
        Err(e) => Err(e),
        Ok((id, r1)) => if r1.len() < 32 {
            Err(WireError::Truncated)
        } else {
            match spec_read_string(r1.skip(32)) {
                Err(e) => Err(e),
                Ok((addr, _)) => Ok(
                    RelayIdentityView { id, public_key: r1.take(32), main_addr: addr },
                ),
            }
        },
    }
}

/// Appends a string with its length prefix.
fn append_len_prefixed(out: &mut Vec<u8>, s: &str)
    ensures
        final(out)@ == old(out)@ + spec_len_prefixed(s@),
{
    let bytes = s.as_bytes();
    let len: u16 = ((bytes.len() as u64) % 65536u64) as u16;
    out.push((len / 256) as u8);
    out.push((len % 256) as u8);
    append_bytes(out, bytes);
    assert(final(out)@ =~= old(out)@ + spec_len_prefixed(s@));
}

/// The answer to a DESCRIBE request.
pub fn encode_describe_response(identity: &RelayIdentity) -> (r: Vec<u8>)
    ensures
        r@ == spec_describe_response(identity@),
{
    let mut out: Vec<u8> = Vec::new();
    append_len_prefixed(&mut out, identity.id.as_str());
    append_bytes(&mut out, identity.public_key.as_bytes().as_slice());
    append_len_prefixed(&mut out, identity.main_addr.as_str());
    assert(out@ =~= spec_describe_response(identity@));
    out
}

/// Reads a length-prefixed string starting at `pos`: the string and the
/// position after it.
fn read_string(bytes: &[u8], pos: usize) -> (r: Result<(String, usize), WireError>)
    requires
        pos <= bytes@.len(),
    ensures
        match spec_read_string(bytes@.skip(pos as int)) {
            Ok((s, rest)) => r matches Ok((t, end)) && t@ == s && end <= bytes@.len()
                && bytes@.skip(end as int) == rest,
            Err(e) => r == Err::<(String, usize), WireError>(e),
        },
{
    let ghost b = bytes@.skip(pos as int);
    if bytes.len() - pos < 2 {
        return Err(WireError::Truncated);
    }
    let len = (bytes[pos] as usize) * 256 + (bytes[pos + 1] as usize);
    assert(b[0] == bytes@[pos as int] && b[1] == bytes@[pos + 1]);
    let start = pos + 2;
    if bytes.len() - start < len {
        return Err(WireError::Truncated);
    }
    let mut raw: Vec<u8> = Vec::new();
    append_bytes(&mut raw, &bytes[start..start + len]);
    assert(raw@ =~= b.skip(2).take(len as int));
    assert(bytes@.skip(start + len) =~= b.skip(2).skip(len as int));
    match string_from_utf8(raw) {
        Some(s) => Ok((s, start + len)),
        None => Err(WireError::InvalidUtf8),
    }
}

/// Reads a DESCRIBE answer. Fails with `Truncated` when it ends early and
/// with `InvalidUtf8` when the id or the address is not UTF-8, checking
/// in the order the fields arrive.
pub fn parse_describe_response(bytes: &[u8]) -> (r: Result<RelayIdentity, WireError>)
    ensures
        match spec_parse_describe_response(bytes@) {
            Ok(v) => r matches Ok(id) && id@ == v,
            Err(e) => r matches Err(f) && f == e,
        },
{
    assert(bytes@.skip(0) =~= bytes@);
    let (id, pos) = match read_string(bytes, 0) {
        Ok(x) => x,
        Err(e) => {
            return Err(e);
        },
    };
    let ghost r1 = bytes@.skip(pos as int);
    if bytes.len() - pos < 32 {
        return Err(WireError::Truncated);
    }
    let mut key = [0u8; 32];
    let mut i: usize = 0;
    while i < 32
        invariant
            i <= 32,
            pos + 32 <= bytes.len(),
            forall|j: int| 0 <= j < i ==> key@[j] == bytes@[pos + j],
        decreases 32 - i,
    {
        key[i] = bytes[pos + i];
        i = i + 1;
    }
    assert(key@ =~= r1.take(32));
    assert(bytes@.skip(pos + 32) =~= r1.skip(32));
    let (main_addr, _end) = match read_string(bytes, pos + 32) {
        Ok(x) => x,
        Err(e) => {
            return Err(e);
        },
    };
    Ok(RelayIdentity { id, public_key: PublicKey(key), main_addr })
}

/// Reading back a length-prefixed string gives the string and what
/// follows it, when its UTF-8 length fits the 16-bit field.
proof fn lemma_read_written_string(s: Seq<char>, rest: Seq<u8>)
    requires
        encode_utf8(s).len() <= 0xffff,
    ensures
        spec_read_string(spec_len_prefixed(s) + rest) == Ok::<(Seq<char>, Seq<u8>), WireError>(
            (s, rest),
        ),
{
    let u = encode_utf8(s);
    let b = spec_len_prefixed(s) + rest;
    let len16 = (u.len() % 65536) as u16;
    assert(len16 == u.len());
    assert(b[0] == be16(len16)[0] && b[1] == be16(len16)[1]);
    assert(from_be16(be16(len16)[0], be16(len16)[1]) == len16);
    assert(b.skip(2) =~= u + rest);
    assert(b.skip(2).take(u.len() as int) =~= u);
    assert(b.skip(2).skip(u.len() as int) =~= rest);
    encode_utf8_valid_utf8(s);
    encode_utf8_decode_utf8(s);
}

/// A client reads back exactly the identity a relay described, whatever
/// follows the answer: the law of DESCRIBE, for an id and an address of
/// at most 65535 UTF-8 bytes and a 32-byte key.
pub proof fn lemma_describe_roundtrip(id: RelayIdentityView, trailing: Seq<u8>)
    requires
        encode_utf8(id.id).len() <= 0xffff,
        encode_utf8(id.main_addr).len() <= 0xffff,
        id.public_key.len() == 32,
    ensures
        spec_parse_describe_response(spec_describe_response(id) + trailing) == Ok::<
            RelayIdentityView,
            WireError,
        >(id),
{
    let tail = spec_len_prefixed(id.main_addr) + trailing;
    let b = spec_describe_response(id) + trailing;
    assert(b =~= spec_len_prefixed(id.id) + (id.public_key + tail));
    lemma_read_written_string(id.id, id.public_key + tail);
    let r1 = id.public_key + tail;
    assert(r1.take(32) =~= id.public_key);
    assert(r1.skip(32) =~= tail);
    lemma_read_written_string(id.main_addr, trailing);
}

} // verus!
