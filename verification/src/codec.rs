//! On-wire frame format: an Ethernet broadcast frame whose ARP-shaped body
//! smuggles one chunk of an application payload, plus the chunking of a
//! serialized payload into bodies that fit the one-byte length field.

use vstd::prelude::*;
use crate::Key;

verus! {

/// Length of the `"file"` preamble that opens every application body.
pub const MSG_PREAMBLE_LEN: usize = 4;

/// Preamble + opcode (1) + offset (2) + total (2) + key (8).
pub const FLOODFILE_HEADER_SIZE: usize = MSG_PREAMBLE_LEN + 5 + 8;

/// The application length field is a single byte, so a whole application
/// body is capped at 255 bytes.
pub const MAX_APP_LEN: usize = 255;

/// Per-chunk budget for payload bytes.
pub const CHUNK_SIZE: usize = MAX_APP_LEN - FLOODFILE_HEADER_SIZE;

/// The ASCII bytes of `"file"`.
pub open spec fn spec_preamble() -> Seq<u8> {
    seq![102u8, 105u8, 108u8, 101u8]
}

/// One parsed chunk: which payload it belongs to (`key`), where its bytes
/// go (`offset` of `total`), and how the reassembled bytes decode (`op`).
pub struct ChunkRecord {
    pub op: u8,
    pub offset: u16,
    pub total: u16,
    pub key: Key,
    pub data: Vec<u8>,
}

/// Ghost image of a [`ChunkRecord`].
pub ghost struct ChunkModel {
    pub op: u8,
    pub offset: u16,
    pub total: u16,
    pub key: Seq<u8>,
    pub data: Seq<u8>,
}

impl View for ChunkRecord {
    type V = ChunkModel;

    open spec fn view(&self) -> ChunkModel {
        ChunkModel {
            op: self.op,
            offset: self.offset,
            total: self.total,
            key: self.key@,
            data: self.data@,
        }
    }
}

/// The application bytes of one chunk: preamble, opcode, offset and total
/// (little endian), key, then the chunk's payload slice.
pub open spec fn spec_app_bytes(op: u8, offset: u16, total: u16, key: Seq<u8>, data: Seq<u8>) -> Seq<u8> {
    spec_preamble() + seq![op] + vstd::bytes::spec_u16_to_le_bytes(offset)
        + vstd::bytes::spec_u16_to_le_bytes(total) + key + data
}

/// The ARP-shaped body: hardware type 1, protocol type 0x0800, hardware
/// size 6, application length, opcode 1 (request), sender MAC, then the
/// application bytes in both protocol-address regions around a zeroed
/// target MAC.
pub open spec fn spec_arp_body(src_mac: Seq<u8>, app: Seq<u8>) -> Seq<u8> {
    seq![0u8, 1u8, 8u8, 0u8, 6u8, app.len() as u8, 0u8, 1u8] + src_mac + app
        + seq![0u8, 0u8, 0u8, 0u8, 0u8, 0u8] + app
}

/// A whole on-wire frame: Ethernet broadcast header with the ARP ethertype
/// (0x0806), then the ARP-shaped body.
pub open spec fn spec_frame(src_mac: Seq<u8>, app: Seq<u8>) -> Seq<u8> {
    seq![255u8, 255u8, 255u8, 255u8, 255u8, 255u8] + src_mac + seq![8u8, 6u8]
        + spec_arp_body(src_mac, app)
}

/// What a receiver makes of an arbitrary byte string: `Some` chunk record
/// exactly when the frame carries the ARP ethertype, ARP opcode 1, the
/// preamble, a length that covers the fixed header, and enough bytes.
pub open spec fn spec_parse_frame(f: Seq<u8>) -> Option<ChunkModel> {
    if f.len() < 32 {
        None
    } else if f[12] != 8 || f[13] != 6 {
        None
    } else if f[20] != 0 || f[21] != 1 {
        None
    } else if f.subrange(28, 32) != spec_preamble() {
        None
    } else if (f[19] as int) < FLOODFILE_HEADER_SIZE as int {
        None
    } else if f.len() < 28 + f[19] as int {
        None
    } else {
        Some(ChunkModel {
            op: f[32],
            offset: vstd::bytes::spec_u16_from_le_bytes(f.subrange(33, 35)),
            total: vstd::bytes::spec_u16_from_le_bytes(f.subrange(35, 37)),
            key: f.subrange(37, 45),
            data: f.subrange(45, 28 + f[19] as int),
        })
    }
}

/// Splits serialized payload bytes into chunks of at most [`CHUNK_SIZE`]
/// bytes; all chunks but the last are full, and no chunk is empty.
pub open spec fn spec_chunks(data: Seq<u8>) -> Seq<Seq<u8>>
    decreases data.len(),
{
    if data.len() == 0 {
        Seq::empty()
    } else if data.len() <= CHUNK_SIZE {
        seq![data]
    } else {
        seq![data.take(CHUNK_SIZE as int)] + spec_chunks(data.skip(CHUNK_SIZE as int))
    }
}

/// Concatenation of a sequence of byte strings, in order.
pub open spec fn spec_concat(ss: Seq<Seq<u8>>) -> Seq<u8>
    decreases ss.len(),
{
    if ss.len() == 0 {
        Seq::empty()
    } else {
        ss[0] + spec_concat(ss.drop_first())
    }
}

/// Concatenation distributes over appending one more byte string.
pub proof fn lemma_concat_push(ss: Seq<Seq<u8>>, x: Seq<u8>)
    ensures
        spec_concat(ss.push(x)) == spec_concat(ss) + x,
    decreases ss.len(),
{
    if ss.len() == 0 {
        assert(ss.push(x).drop_first() =~= Seq::<Seq<u8>>::empty());
        assert(ss.push(x)[0] == x);
        assert(spec_concat(ss) == Seq::<u8>::empty());
        assert(spec_concat(ss.push(x)) == x + spec_concat(Seq::<Seq<u8>>::empty()));
        assert(x + Seq::<u8>::empty() =~= Seq::<u8>::empty() + x);
    } else {
        lemma_concat_push(ss.drop_first(), x);
        assert(ss.push(x).drop_first() =~= ss.drop_first().push(x));
        assert(ss.push(x)[0] == ss[0]);
        assert(spec_concat(ss.push(x)) == ss[0] + spec_concat(ss.drop_first().push(x)));
        assert(spec_concat(ss.drop_first().push(x)) == spec_concat(ss.drop_first()) + x);
        assert(ss[0] + (spec_concat(ss.drop_first()) + x)
            =~= (ss[0] + spec_concat(ss.drop_first())) + x);
        assert(spec_concat(ss) == ss[0] + spec_concat(ss.drop_first()));
    }
}

/// Concatenating the chunks of a byte string, in ascending offset order,
/// restores the byte string.
pub proof fn lemma_chunks_concat(data: Seq<u8>)
    ensures
        spec_concat(spec_chunks(data)) == data,
    decreases data.len(),
{
    if data.len() == 0 {
        assert(spec_concat(spec_chunks(data)) =~= data);
    } else if data.len() <= CHUNK_SIZE {
        let ss = spec_chunks(data);
        assert(ss.drop_first() =~= Seq::<Seq<u8>>::empty());
        assert(spec_concat(ss) == ss[0] + spec_concat(ss.drop_first()));
        assert(spec_concat(ss) =~= data);
    } else {
        let c = CHUNK_SIZE as int;
        lemma_chunks_concat(data.skip(c));
        let ss = spec_chunks(data);
        assert(ss.drop_first() =~= spec_chunks(data.skip(c)));
        assert(spec_concat(ss) =~= data.take(c) + data.skip(c));
        assert(data.take(c) + data.skip(c) =~= data);
    }
}

/// Every chunk is non-empty and at most [`CHUNK_SIZE`] bytes, so every
/// application body fits the one-byte length field.
pub proof fn lemma_chunk_sizes(data: Seq<u8>)
    ensures
        forall|i: int| 0 <= i < spec_chunks(data).len()
            ==> 0 < (#[trigger] spec_chunks(data)[i]).len() <= CHUNK_SIZE,
    decreases data.len(),
{
    if data.len() == 0 {
    } else if data.len() <= CHUNK_SIZE {
    } else {
        let c = CHUNK_SIZE as int;
        lemma_chunk_sizes(data.skip(c));
        assert forall|i: int| 0 <= i < spec_chunks(data).len()
            implies 0 < (#[trigger] spec_chunks(data)[i]).len() <= CHUNK_SIZE by {
            if i > 0 {
                assert(spec_chunks(data)[i] == spec_chunks(data.skip(c))[i - 1]);
            }
        }
    }
}

/// Appends all bytes of `src` to `out`.
pub fn push_bytes(out: &mut Vec<u8>, src: &[u8])
    ensures
        final(out)@ == old(out)@ + src@,
{
    let ghost start = out@;
    let mut i: usize = 0;
    while i < src.len()
        invariant
            0 <= i <= src@.len(),
            out@ == start + src@.take(i as int),
        decreases src@.len() - i,
    {
        out.push(src[i]);
        proof {
            assert(start + src@.take(i as int) + seq![src@[i as int]]
                =~= start + src@.take(i + 1));
        }
        i = i + 1;
    }
    proof {
        assert(start + src@.take(src@.len() as int) =~= start + src@);
    }
}

/// Builds the full on-wire frame for one chunk.
pub fn build_frame(src_mac: &[u8; 6], op: u8, offset: u16, total: u16, key: &Key, data: &[u8]) -> (r: Vec<u8>)
    requires
        FLOODFILE_HEADER_SIZE + data@.len() <= MAX_APP_LEN,
    ensures
        r@ == spec_frame(src_mac@, spec_app_bytes(op, offset, total, key@, data@)),
{
    let mut app: Vec<u8> = Vec::new();
    app.push(102);
    app.push(105);
    app.push(108);
    app.push(101);
    app.push(op);
    let off_bytes = vstd::bytes::u16_to_le_bytes(offset);
    push_bytes(&mut app, off_bytes.as_slice());
    let tot_bytes = vstd::bytes::u16_to_le_bytes(total);
    push_bytes(&mut app, tot_bytes.as_slice());
    push_bytes(&mut app, key.as_slice());
    push_bytes(&mut app, data);
    proof {
        assert(app@ =~= spec_app_bytes(op, offset, total, key@, data@));
    }
    let app_len: u8 = app.len() as u8;

    let mut out: Vec<u8> = Vec::new();
    out.push(255);
    out.push(255);
    out.push(255);
    out.push(255);
    out.push(255);
    out.push(255);
    push_bytes(&mut out, src_mac.as_slice());
    out.push(8);
    out.push(6);
    out.push(0);
    out.push(1);
    out.push(8);
    out.push(0);
    out.push(6);
    out.push(app_len);
    out.push(0);
    out.push(1);
    push_bytes(&mut out, src_mac.as_slice());
    push_bytes(&mut out, app.as_slice());
    out.push(0);
    out.push(0);
    out.push(0);
    out.push(0);
    out.push(0);
    out.push(0);
    push_bytes(&mut out, app.as_slice());
    proof {
        assert(out@ =~= spec_frame(src_mac@, spec_app_bytes(op, offset, total, key@, data@)));
    }
    out
}

/// Parses an arbitrary byte string as an on-wire frame, mirroring
/// [`spec_parse_frame`].
pub fn parse_frame(frame: &[u8]) -> (r: Option<ChunkRecord>)
    ensures
        (r is Some) == (spec_parse_frame(frame@) is Some),
        r is Some ==> r.unwrap()@ == spec_parse_frame(frame@).unwrap(),
{
    if frame.len() < 32 {
        return None;
    }
    if frame[12] != 8 || frame[13] != 6 {
        return None;
    }
    if frame[20] != 0 || frame[21] != 1 {
        return None;
    }
    if frame[28] == 102 && frame[29] == 105 && frame[30] == 108 && frame[31] == 101 {
        proof {
            assert(frame@.subrange(28, 32) =~= spec_preamble());
        }
    } else {
        proof {
            assert(frame@.subrange(28, 32) != spec_preamble()) by {
                if frame@.subrange(28, 32) == spec_preamble() {
                    assert(frame@.subrange(28, 32)[0] == spec_preamble()[0]);
                    assert(frame@.subrange(28, 32)[1] == spec_preamble()[1]);
                    assert(frame@.subrange(28, 32)[2] == spec_preamble()[2]);
                    assert(frame@.subrange(28, 32)[3] == spec_preamble()[3]);
                }
            }
        }
        return None;
    }
    let l = frame[19] as usize;
    if l < FLOODFILE_HEADER_SIZE {
        return None;
    }
    if frame.len() < 28 + l {
        return None;
    }
    let op = frame[32];
    let offset = vstd::bytes::u16_from_le_bytes(&frame[33..35]);
    let total = vstd::bytes::u16_from_le_bytes(&frame[35..37]);
    let mut key: Key = [0u8; 8];
    let mut i: usize = 0;
    while i < 8
        invariant
            0 <= i <= 8,
            frame@.len() >= 45,
            forall|j: int| 0 <= j < i ==> key@[j] == frame@[37 + j],
        decreases 8 - i,
    {
        key[i] = frame[37 + i];
        i = i + 1;
    }
    proof {
        assert(key@ =~= spec_parse_frame(frame@).unwrap().key);
    }
    let data = vstd::slice::slice_to_vec(&frame[45..28 + l]);
    Some(ChunkRecord { op, offset, total, key, data })
}

/// The views of a sequence of byte vectors, in order.
pub open spec fn spec_views(vs: Seq<Vec<u8>>) -> Seq<Seq<u8>> {
    Seq::new(vs.len(), |j: int| vs[j]@)
}

/// Splits serialized payload bytes into chunk slices, mirroring
/// [`spec_chunks`].
pub fn split_chunks(data: &[u8]) -> (r: Vec<Vec<u8>>)
    ensures
        spec_views(r@) == spec_chunks(data@),
{
    let mut r: Vec<Vec<u8>> = Vec::new();
    let mut i: usize = 0;
    proof {
        assert(data@.skip(0) =~= data@);
        assert(spec_views(r@) + spec_chunks(data@.skip(0)) =~= spec_chunks(data@));
    }
    while i < data.len()
        invariant
            0 <= i <= data@.len(),
            spec_views(r@) + spec_chunks(data@.skip(i as int)) =~= spec_chunks(data@),
        decreases data@.len() - i,
    {
        let ghost prev_i = i as int;
        let ghost prev_r = r@;
        let remaining = data.len() - i;
        let end = if remaining > CHUNK_SIZE {
            i + CHUNK_SIZE
        } else {
            data.len()
        };
        let piece = vstd::slice::slice_to_vec(&data[i..end]);
        r.push(piece);
        i = end;
        proof {
            let rest = data@.skip(prev_i);
            if data@.len() - prev_i > CHUNK_SIZE {
                assert(rest.take(CHUNK_SIZE as int) =~= data@.subrange(prev_i, prev_i + CHUNK_SIZE));
                assert(rest.skip(CHUNK_SIZE as int) =~= data@.skip(i as int));
                assert(spec_chunks(rest) == seq![rest.take(CHUNK_SIZE as int)]
                    + spec_chunks(rest.skip(CHUNK_SIZE as int)));
            } else {
                assert(rest =~= data@.subrange(prev_i, data@.len() as int));
                assert(data@.skip(i as int).len() == 0);
                assert(spec_chunks(data@.skip(i as int)) =~= Seq::<Seq<u8>>::empty());
            }
            assert(piece@ == spec_chunks(rest)[0]);
            assert(spec_views(r@) =~= spec_views(prev_r) + seq![piece@]);
            assert(spec_views(r@) + spec_chunks(data@.skip(i as int))
                =~= spec_views(prev_r) + spec_chunks(rest));
            assert(spec_views(r@) + spec_chunks(data@.skip(i as int)) =~= spec_chunks(data@));
        }
    }
    proof {
        assert(data@.skip(data@.len() as int).len() == 0);
        assert(spec_chunks(data@.skip(data@.len() as int)) =~= Seq::<Seq<u8>>::empty());
        assert(spec_views(r@) =~= spec_chunks(data@));
    }
    r
}

/// Parsing inverts building: a frame built from a chunk parses back to
/// exactly that chunk.
pub proof fn lemma_frame_round_trip(src_mac: Seq<u8>, op: u8, offset: u16, total: u16, key: Seq<u8>, data: Seq<u8>)
    requires
        src_mac.len() == 6,
        key.len() == 8,
        FLOODFILE_HEADER_SIZE + data.len() <= MAX_APP_LEN,
    ensures
        ({
            let m = spec_parse_frame(spec_frame(src_mac, spec_app_bytes(op, offset, total, key, data)));
            &&& m is Some
            &&& m.unwrap().op == op
            &&& m.unwrap().offset == offset
            &&& m.unwrap().total == total
            &&& m.unwrap().key == key
            &&& m.unwrap().data == data
        }),
{
    vstd::bytes::lemma_auto_spec_u16_to_from_le_bytes();
    let app = spec_app_bytes(op, offset, total, key, data);
    let f = spec_frame(src_mac, app);
    assert(app.len() == FLOODFILE_HEADER_SIZE + data.len());
    assert(f.len() == 34 + 2 * app.len());
    assert(f[12] == 8 && f[13] == 6);
    assert(f[20] == 0 && f[21] == 1);
    assert(f[19] == app.len() as u8);
    assert(f.subrange(28, 32) =~= spec_preamble());
    assert(f[32] == op);
    assert(f.subrange(33, 35) =~= vstd::bytes::spec_u16_to_le_bytes(offset));
    assert(f.subrange(35, 37) =~= vstd::bytes::spec_u16_to_le_bytes(total));
    assert(f.subrange(37, 45) =~= key);
    assert(f.subrange(45, 28 + f[19] as int) =~= data);
}

/// Chunking obeys the chunk budget: every application body built from a
/// chunk is at most [`MAX_APP_LEN`] bytes long.
pub proof fn lemma_chunk_budget(op: u8, offset: u16, total: u16, key: Seq<u8>, data: Seq<u8>)
    requires
        key.len() == 8,
    ensures
        forall|i: int| 0 <= i < spec_chunks(data).len()
            ==> (#[trigger] spec_app_bytes(op, offset, total, key, spec_chunks(data)[i])).len()
                <= MAX_APP_LEN,
{
    lemma_chunk_sizes(data);
    vstd::bytes::lemma_auto_spec_u16_to_from_le_bytes();
}

} // verus!
