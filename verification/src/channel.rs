//! The link-layer datagram channel: chunked transmission of a logical
//! payload under one random key, and reassembly of incoming chunks into
//! complete payloads.

use vstd::prelude::*;
use crate::{Key, key_eq};
use crate::codec::{
    spec_app_bytes, spec_chunks, spec_concat, spec_frame, spec_parse_frame,
    spec_views, split_chunks, build_frame, parse_frame, lemma_chunk_sizes,
    CHUNK_SIZE, FLOODFILE_HEADER_SIZE, MAX_APP_LEN,
};
use crate::errors::FloodFileError;
use crate::payload::{Payload, PayloadModel, spec_file_fits, spec_opcode, spec_serialize, spec_deserialize};
use crate::utils::{InterfaceInfo, InterfaceModel};

verus! {

/// One reassembly bucket: the slots of a payload being collected under a
/// key. A slot is unfilled while it is empty; chunks of a real payload
/// are never empty.
pub struct Bucket {
    pub key: Key,
    pub slots: Vec<Vec<u8>>,
}

/// Fresh slots for a payload of `n` chunks, all unfilled.
pub open spec fn spec_empty_slots(n: int) -> Seq<Seq<u8>> {
    Seq::new(n as nat, |i: int| Seq::<u8>::empty())
}

/// Storing a chunk fills its slot if that slot is still empty; a later
/// duplicate is ignored.
pub open spec fn spec_store(slots: Seq<Seq<u8>>, off: int, data: Seq<u8>) -> Seq<Seq<u8>> {
    if slots[off].len() == 0 {
        slots.update(off, data)
    } else {
        slots
    }
}

/// A bucket is complete when every slot is filled.
pub open spec fn spec_complete(slots: Seq<Seq<u8>>) -> bool {
    forall|i: int| 0 <= i < slots.len() ==> (#[trigger] slots[i]).len() > 0
}

/// What one arriving frame does to a reassembly table.
pub ghost enum RecvOutcome {
    /// The frame failed validation, or its offset does not fit its
    /// bucket: the table is unchanged and nothing is returned.
    Dropped,
    /// The chunk was stored but its bucket is still incomplete: the
    /// bucket for the frame's key now holds these slots.
    Stored(Seq<Seq<u8>>),
    /// The chunk completed its bucket: the bucket is removed and these
    /// reassembled bytes are handed to the payload decoder.
    Completed(Seq<u8>),
}

/// The reassembly transition: how a table reacts to one arriving frame.
pub open spec fn spec_recv_step(t: Map<Seq<u8>, Seq<Seq<u8>>>, f: Seq<u8>) -> RecvOutcome {
    match spec_parse_frame(f) {
        Option::None => RecvOutcome::Dropped,
        Option::Some(rec) => {
            let slots0 = if t.contains_key(rec.key) {
                t[rec.key]
            } else {
                spec_empty_slots(rec.total as int)
            };
            if slots0.len() == 0 || rec.offset as int >= slots0.len() {
                RecvOutcome::Dropped
            } else {
                let slots1 = spec_store(slots0, rec.offset as int, rec.data);
                if spec_complete(slots1) {
                    RecvOutcome::Completed(spec_concat(slots1))
                } else {
                    RecvOutcome::Stored(slots1)
                }
            }
        },
    }
}

/// The table after one frame, as [`Channel::recv`] leaves it: untouched
/// for a dropped frame, the bucket updated for a stored chunk, the
/// bucket gone once it completes.
pub open spec fn spec_step_table(t: Map<Seq<u8>, Seq<Seq<u8>>>, f: Seq<u8>) -> Map<
    Seq<u8>,
    Seq<Seq<u8>>,
> {
    match spec_parse_frame(f) {
        Option::None => t,
        Option::Some(rec) => match spec_recv_step(t, f) {
            RecvOutcome::Dropped => t,
            RecvOutcome::Stored(slots) => t.insert(rec.key, slots),
            RecvOutcome::Completed(_) => t.remove(rec.key),
        },
    }
}

/// The channel owns the bound interface's identity, the local storage
/// directory, and the reassembly table. The raw datalink handles live
/// outside the library; frames come in and go out as plain byte strings.
pub struct Channel {
    src_mac: [u8; 6],
    local_path: String,
    interface: InterfaceInfo,
    packets: Vec<Bucket>,
}

/// First index of a bucket holding `key`, if any.
pub open spec fn spec_bucket_index(bs: Seq<Bucket>, key: Seq<u8>) -> Option<int> {
    if exists|i: int| 0 <= i < bs.len() && (#[trigger] bs[i]).key@ == key {
        Some(choose|i: int| 0 <= i < bs.len() && (#[trigger] bs[i]).key@ == key)
    } else {
        None
    }
}

/// No two buckets share a key, so the table below is well defined.
pub open spec fn spec_unique_keys(bs: Seq<Bucket>) -> bool {
    forall|i: int, j: int| 0 <= i < j < bs.len()
        ==> (#[trigger] bs[i]).key@ != (#[trigger] bs[j]).key@
}

/// The table a bucket sequence stands for: each key in flight mapped to
/// the slots collected so far.
pub open spec fn spec_table(bs: Seq<Bucket>) -> Map<Seq<u8>, Seq<Seq<u8>>> {
    Map::new(
        |k: Seq<u8>| spec_bucket_index(bs, k) is Some,
        |k: Seq<u8>| spec_views(bs[spec_bucket_index(bs, k).unwrap()].slots@),
    )
}

/// With unique keys, a bucket's position is the index the table lookup
/// finds.
proof fn lemma_bucket_index_unique(bs: Seq<Bucket>, i: int)
    requires
        spec_unique_keys(bs),
        0 <= i < bs.len(),
    ensures
        spec_bucket_index(bs, bs[i].key@) == Some(i),
        spec_table(bs).contains_key(bs[i].key@),
        spec_table(bs)[bs[i].key@] == spec_views(bs[i].slots@),
{
    let k = bs[i].key@;
    assert(exists|j: int| 0 <= j < bs.len() && (#[trigger] bs[j]).key@ == k);
    let j = choose|j: int| 0 <= j < bs.len() && (#[trigger] bs[j]).key@ == k;
    if j != i {
        if j < i {
            assert(bs[j].key@ != bs[i].key@);
        } else {
            assert(bs[i].key@ != bs[j].key@);
        }
    }
}

/// A key no bucket holds is not in the table.
proof fn lemma_bucket_index_absent(bs: Seq<Bucket>, k: Seq<u8>)
    requires
        forall|i: int| 0 <= i < bs.len() ==> (#[trigger] bs[i]).key@ != k,
    ensures
        spec_bucket_index(bs, k) is None,
        !spec_table(bs).contains_key(k),
{
}

/// Removing a bucket removes exactly its key from the table.
proof fn lemma_table_remove(bs: Seq<Bucket>, i: int)
    requires
        spec_unique_keys(bs),
        0 <= i < bs.len(),
    ensures
        spec_unique_keys(bs.remove(i)),
        spec_table(bs.remove(i)) == spec_table(bs).remove(bs[i].key@),
{
    let bs2 = bs.remove(i);
    let ki = bs[i].key@;
    assert forall|a: int, b: int| 0 <= a < b < bs2.len()
        implies (#[trigger] bs2[a]).key@ != (#[trigger] bs2[b]).key@ by {
        let a0 = if a < i { a } else { a + 1 };
        let b0 = if b < i { b } else { b + 1 };
        assert(bs2[a] == bs[a0] && bs2[b] == bs[b0]);
    }
    assert forall|k: Seq<u8>| true implies #[trigger] spec_table(bs2).contains_key(k)
        == spec_table(bs).remove(ki).contains_key(k) by {
        if k == ki {
            assert forall|j: int| 0 <= j < bs2.len()
                implies (#[trigger] bs2[j]).key@ != k by {
                let j0 = if j < i { j } else { j + 1 };
                assert(bs2[j] == bs[j0]);
                if j0 < i {
                    assert(bs[j0].key@ != bs[i].key@);
                } else {
                    assert(bs[i].key@ != bs[j0].key@);
                }
            }
            lemma_bucket_index_absent(bs2, k);
        } else {
            if spec_bucket_index(bs, k) is Some {
                let j = choose|j: int| 0 <= j < bs.len() && (#[trigger] bs[j]).key@ == k;
                let j2 = if j < i { j } else { j - 1 };
                assert(bs2[j2] == bs[j]);
                assert(spec_bucket_index(bs2, k) is Some);
            }
            if spec_bucket_index(bs2, k) is Some {
                let j = choose|j: int| 0 <= j < bs2.len() && (#[trigger] bs2[j]).key@ == k;
                let j0 = if j < i { j } else { j + 1 };
                assert(bs2[j] == bs[j0]);
                assert(spec_bucket_index(bs, k) is Some);
            }
        }
    }
    assert forall|k: Seq<u8>| spec_table(bs2).contains_key(k)
        implies #[trigger] spec_table(bs2)[k] == spec_table(bs).remove(ki)[k] by {
        let j = choose|j: int| 0 <= j < bs2.len() && (#[trigger] bs2[j]).key@ == k;
        lemma_bucket_index_unique(bs2, j);
        let j0 = if j < i { j } else { j + 1 };
        assert(bs2[j] == bs[j0]);
        lemma_bucket_index_unique(bs, j0);
    }
    assert(spec_table(bs2) =~= spec_table(bs).remove(ki));
}

/// Inserting a bucket with a fresh key inserts exactly its key into the
/// table.
proof fn lemma_table_insert(bs: Seq<Bucket>, i: int, b: Bucket)
    requires
        spec_unique_keys(bs),
        0 <= i <= bs.len(),
        forall|j: int| 0 <= j < bs.len() ==> (#[trigger] bs[j]).key@ != b.key@,
    ensures
        spec_unique_keys(bs.insert(i, b)),
        spec_table(bs.insert(i, b)) == spec_table(bs).insert(b.key@, spec_views(b.slots@)),
{
    let bs2 = bs.insert(i, b);
    assert(bs2[i] == b);
    assert forall|a: int, b2: int| 0 <= a < b2 < bs2.len()
        implies (#[trigger] bs2[a]).key@ != (#[trigger] bs2[b2]).key@ by {
        if a != i && b2 != i {
            let a0 = if a < i { a } else { a - 1 };
            let b0 = if b2 < i { b2 } else { b2 - 1 };
            assert(bs2[a] == bs[a0] && bs2[b2] == bs[b0]);
        } else if a == i {
            let b0 = if b2 < i { b2 } else { b2 - 1 };
            assert(bs2[b2] == bs[b0]);
        } else {
            let a0 = if a < i { a } else { a - 1 };
            assert(bs2[a] == bs[a0]);
        }
    }
    assert forall|k: Seq<u8>| true implies #[trigger] spec_table(bs2).contains_key(k)
        == spec_table(bs).insert(b.key@, spec_views(b.slots@)).contains_key(k) by {
        if k == b.key@ {
            assert(bs2[i].key@ == k);
            assert(spec_bucket_index(bs2, k) is Some);
        } else {
            if spec_bucket_index(bs, k) is Some {
                let j = choose|j: int| 0 <= j < bs.len() && (#[trigger] bs[j]).key@ == k;
                let j2 = if j < i { j } else { j + 1 };
                assert(bs2[j2] == bs[j]);
                assert(spec_bucket_index(bs2, k) is Some);
            }
            if spec_bucket_index(bs2, k) is Some {
                let j = choose|j: int| 0 <= j < bs2.len() && (#[trigger] bs2[j]).key@ == k;
                let j0 = if j < i { j } else { j - 1 };
                assert(bs2[j] == bs[j0]);
                assert(spec_bucket_index(bs, k) is Some);
            }
        }
    }
    assert forall|k: Seq<u8>| spec_table(bs2).contains_key(k)
        implies #[trigger] spec_table(bs2)[k]
            == spec_table(bs).insert(b.key@, spec_views(b.slots@))[k] by {
        let j = choose|j: int| 0 <= j < bs2.len() && (#[trigger] bs2[j]).key@ == k;
        lemma_bucket_index_unique(bs2, j);
        if k == b.key@ {
            if j != i {
                let j0 = if j < i { j } else { j - 1 };
                assert(bs2[j] == bs[j0]);
            }
            assert(spec_table(bs2)[k] == spec_views(b.slots@));
        } else {
            let j0 = if j < i { j } else { j - 1 };
            assert(bs2[j] == bs[j0]);
            lemma_bucket_index_unique(bs, j0);
        }
    }
    assert(spec_table(bs2) =~= spec_table(bs).insert(b.key@, spec_views(b.slots@)));
}

impl Channel {
    /// No two buckets share a key, so the reassembly table is well
    /// defined.
    pub closed spec fn wf(self) -> bool {
        spec_unique_keys(self.packets@)
    }

    /// The reassembly table: for each key in flight, the slots collected
    /// so far.
    pub closed spec fn table(self) -> Map<Seq<u8>, Seq<Seq<u8>>> {
        spec_table(self.packets@)
    }

    /// The MAC address frames are stamped with.
    pub closed spec fn mac(self) -> Seq<u8> {
        self.src_mac@
    }

    /// The bound interface.
    pub closed spec fn interface_model(self) -> InterfaceModel {
        self.interface@
    }

    /// The local storage directory.
    pub closed spec fn path(self) -> Seq<char> {
        self.local_path@
    }

    /// Builds a channel bound to `interface`, with an empty reassembly
    /// table and `default_path` as the storage directory. The raw
    /// datalink binding and its listener live with the caller.
    pub fn new(interface: InterfaceInfo, default_path: String) -> (r: Channel)
        requires
            interface@.mac is Some,
        ensures
            r.wf(),
            r.table() == Map::<Seq<u8>, Seq<Seq<u8>>>::empty(),
            r.interface_model() == interface@,
            r.mac() == interface@.mac.unwrap(),
            r.path() == default_path@,
    {
        let mac = match interface.mac {
            Some(m) => m,
            None => [0u8; 6],
        };
        let r = Channel {
            src_mac: mac,
            local_path: default_path,
            interface,
            packets: Vec::new(),
        };
        proof {
            assert(r.table() =~= Map::<Seq<u8>, Seq<Seq<u8>>>::empty());
        }
        r
    }

    /// The name of the bound interface.
    pub fn interface_name(&self) -> (r: String)
        ensures
            r@ == self.interface_model().name,
    {
        self.interface.name.clone()
    }

    /// Sets the local storage directory. Any string parses as a path, so
    /// this never fails; the `Result` is kept for callers that treat it
    /// as fallible.
    pub fn set_path(&mut self, path: &String) -> (r: Result<(), FloodFileError>)
        ensures
            r is Ok,
            final(self).path() == path@,
            final(self).table() == old(self).table(),
            final(self).wf() == old(self).wf(),
            final(self).mac() == old(self).mac(),
            final(self).interface_model() == old(self).interface_model(),
    {
        self.local_path = path.clone();
        Ok(())
    }

    /// The local storage directory.
    pub fn get_path(&self) -> (r: String)
        ensures
            r@ == self.path(),
    {
        self.local_path.clone()
    }

    /// Builds the on-wire frame for one chunk: the application header and
    /// data duplicated inside an ARP-shaped broadcast frame. Fails with
    /// `PacketTooLarge` exactly when the application body would overflow
    /// the one-byte length field.
    pub fn send_chunk(&self, op: u8, offset: u16, total: u16, key: Key, data: &[u8]) -> (r: Result<
        Vec<u8>,
        FloodFileError,
    >)
        ensures
            (r is Ok) == (FLOODFILE_HEADER_SIZE + data@.len() <= MAX_APP_LEN),
            r matches Ok(f) ==> f@ == spec_frame(
                self.mac(),
                spec_app_bytes(op, offset, total, key@, data@),
            ),
            r matches Err(e) ==> e == FloodFileError::PacketTooLarge,
    {
        if data.len() > MAX_APP_LEN - FLOODFILE_HEADER_SIZE {
            return Err(FloodFileError::PacketTooLarge);
        }
        Ok(build_frame(&self.src_mac, op, offset, total, &key, data))
    }

    /// Serializes a payload, splits it into chunks, draws one random key,
    /// and builds the frames to transmit, in ascending offset order.
    /// Fails with `FileTooLarge` exactly when the payload needs more than
    /// 65,535 chunks: an offset still fits a `u16` at exactly 65,535.
    /// Transmission itself, best effort and per chunk, lives with the
    /// caller.
    ///
    /// The last clause is the codec round trip: the chunk bodies, taken
    /// in ascending offset order and concatenated, decode back to this
    /// very payload under its opcode.
    pub fn send(&self, packet: Payload) -> (r: Result<Vec<Vec<u8>>, FloodFileError>)
        requires
            spec_file_fits(packet@),
        ensures
            (r is Ok) == (spec_chunks(spec_serialize(packet@)).len() <= 65535),
            r matches Err(e) ==> e == FloodFileError::FileTooLarge,
            r matches Ok(frames) ==> spec_sent_frames(
                spec_views(frames@),
                self.mac(),
                spec_opcode(packet@),
                spec_chunks(spec_serialize(packet@)),
            ),
            spec_deserialize(
                spec_opcode(packet@),
                spec_concat(spec_chunks(spec_serialize(packet@))),
            ) == Some(packet@),
    {
        let data = packet.serialize();
        let chunks = split_chunks(data.as_slice());
        let opcode = packet.opcode();
        let total = chunks.len();
        let key = random_key();
        proof {
            lemma_chunk_sizes(data@);
            crate::codec::lemma_chunks_concat(data@);
        }

        if total > 65535 {
            return Err(FloodFileError::FileTooLarge);
        }

        let mut frames: Vec<Vec<u8>> = Vec::new();
        let mut offset: usize = 0;
        while offset < total
            invariant
                0 <= offset <= total,
                total == spec_chunks(data@).len() <= 65535,
                chunks@.len() == total,
                spec_views(chunks@) == spec_chunks(data@),
                forall|i: int| 0 <= i < total
                    ==> 0 < (#[trigger] spec_chunks(data@)[i]).len() <= CHUNK_SIZE,
                key@.len() == 8,
                frames@.len() == offset,
                forall|i: int| 0 <= i < offset ==> (#[trigger] frames@[i])@ == spec_frame(
                    self.mac(),
                    spec_app_bytes(opcode, i as u16, total as u16, key@, spec_chunks(data@)[i]),
                ),
            decreases total - offset,
        {
            let frame = match self.send_chunk(opcode, offset as u16, total as u16, key, chunks[offset].as_slice()) {
                Ok(f) => f,
                Err(e) => {
                    proof {
                        assert(chunks@[offset as int]@ == spec_views(chunks@)[offset as int]);
                        assert(false);
                    }
                    return Err(e);
                },
            };
            frames.push(frame);
            offset = offset + 1;
        }
        proof {
            let k = key@;
            assert(spec_sent_frames(
                spec_views(frames@),
                self.mac(),
                spec_opcode(packet@),
                spec_chunks(spec_serialize(packet@)),
            )) by {
                assert(k.len() == 8);
                assert(spec_frames_for(
                    spec_views(frames@),
                    self.mac(),
                    spec_opcode(packet@),
                    k,
                    spec_chunks(spec_serialize(packet@)),
                ));
            }
        }
        Ok(frames)
    }

    /// First position of the bucket collecting `key`, if one exists.
    fn find_bucket_index(&self, key: &Key) -> (r: Option<usize>)
        ensures
            match r {
                Some(i) => i < self.packets@.len() && self.packets@[i as int].key@ == key@,
                None => forall|i: int| 0 <= i < self.packets@.len()
                    ==> (#[trigger] self.packets@[i]).key@ != key@,
            },
    {
        let mut i: usize = 0;
        while i < self.packets.len()
            invariant
                0 <= i <= self.packets@.len(),
                forall|j: int| 0 <= j < i ==> (#[trigger] self.packets@[j]).key@ != key@,
            decreases self.packets@.len() - i,
        {
            if key_eq(&self.packets[i].key, key) {
                return Some(i);
            }
            i = i + 1;
        }
        None
    }

    /// Feeds one raw frame into reassembly. Returns `Ok(Some(payload))`
    /// exactly when this frame completes its bucket and the reassembled
    /// bytes decode; a frame that fails validation, duplicates a chunk,
    /// or leaves its bucket incomplete yields `Ok(None)` with the table
    /// updated as [`spec_recv_step`] says. A completed bucket that does
    /// not decode is removed and reported as `FailedToDeserializeArp`.
    pub fn recv(&mut self, frame: &[u8]) -> (r: Result<Option<Payload>, FloodFileError>)
        requires
            old(self).wf(),
        ensures
            final(self).wf(),
            final(self).mac() == old(self).mac(),
            final(self).interface_model() == old(self).interface_model(),
            final(self).path() == old(self).path(),
            final(self).table() == spec_step_table(old(self).table(), frame@),
            match spec_recv_step(old(self).table(), frame@) {
                RecvOutcome::Dropped => {
                    &&& final(self).table() == old(self).table()
                    &&& r matches Ok(p) && p is None
                },
                RecvOutcome::Stored(slots) => {
                    &&& final(self).table() == old(self).table().insert(
                        spec_parse_frame(frame@).unwrap().key,
                        slots,
                    )
                    &&& r matches Ok(p) && p is None
                },
                RecvOutcome::Completed(bytes) => {
                    &&& final(self).table() == old(self).table().remove(
                        spec_parse_frame(frame@).unwrap().key,
                    )
                    &&& match spec_deserialize(spec_parse_frame(frame@).unwrap().op, bytes) {
                        Some(m) => r matches Ok(p) && p matches Some(pl) && pl@ == m,
                        None => r matches Err(e) && e == FloodFileError::FailedToDeserializeArp,
                    }
                },
            },
    {
        let ghost t0 = old(self).table();
        let rec = match parse_frame(frame) {
            Some(rec) => rec,
            None => {
                return Ok(None);
            },
        };
        let ghost key = rec.key@;
        let off = rec.offset as usize;
        match self.find_bucket_index(&rec.key) {
            Some(i) => {
                proof {
                    lemma_bucket_index_unique(self.packets@, i as int);
                }
                let ghost slots0 = spec_views(self.packets@[i as int].slots@);
                if off >= self.packets[i].slots.len() {
                    return Ok(None);
                }
                let mut bucket = self.packets.remove(i);
                proof {
                    lemma_table_remove(old(self).packets@, i as int);
                }
                let ghost held = bucket.slots@;
                let dup = bucket.slots[off].len() > 0;
                if !dup {
                    bucket.slots[off] = rec.data;
                }
                proof {
                    if dup {
                        assert(spec_views(bucket.slots@) == spec_store(slots0, off as int, rec.data@));
                    } else {
                        assert(spec_views(held)[off as int].len() == 0);
                        assert(spec_views(bucket.slots@)
                            =~= spec_store(slots0, off as int, rec.data@));
                    }
                }
                if all_filled(&bucket.slots) {
                    let bytes = concat_slots(&bucket.slots);
                    match Payload::deserialize(rec.op, bytes.as_slice()) {
                        Some(p) => Ok(Some(p)),
                        None => Err(FloodFileError::FailedToDeserializeArp),
                    }
                } else {
                    let ghost before_insert = self.packets@;
                    let ghost slots1 = spec_views(bucket.slots@);
                    let ghost b = bucket;
                    self.packets.insert(i, bucket);
                    proof {
                        assert forall|j: int| 0 <= j < before_insert.len()
                            implies (#[trigger] before_insert[j]).key@ != b.key@ by {
                            let j0 = if j < i { j } else { j + 1 };
                            assert(before_insert[j] == old(self).packets@[j0]);
                            if j0 != i {
                                lemma_bucket_index_unique(old(self).packets@, i as int);
                                if j0 < i {
                                    assert(old(self).packets@[j0].key@
                                        != old(self).packets@[i as int].key@);
                                } else {
                                    assert(old(self).packets@[i as int].key@
                                        != old(self).packets@[j0].key@);
                                }
                            }
                        }
                        lemma_table_insert(before_insert, i as int, b);
                        assert(final(self).table() =~= t0.insert(key, slots1));
                    }
                    Ok(None)
                }
            },
            None => {
                proof {
                    lemma_bucket_index_absent(self.packets@, key);
                }
                if off >= rec.total as usize {
                    return Ok(None);
                }
                let mut slots = make_empty_slots(rec.total);
                let ghost slots0 = spec_views(slots@);
                slots[off] = rec.data;
                proof {
                    assert(spec_views(slots@) =~= spec_store(slots0, off as int, rec.data@));
                }
                if all_filled(&slots) {
                    let bytes = concat_slots(&slots);
                    proof {
                        assert(t0.remove(key) =~= t0);
                    }
                    match Payload::deserialize(rec.op, bytes.as_slice()) {
                        Some(p) => Ok(Some(p)),
                        None => Err(FloodFileError::FailedToDeserializeArp),
                    }
                } else {
                    let ghost before_push = self.packets@;
                    let ghost slots1 = spec_views(slots@);
                    let b = Bucket { key: rec.key, slots };
                    self.packets.push(b);
                    proof {
                        assert(final(self).packets@ =~= before_push.insert(
                            before_push.len() as int,
                            b,
                        ));
                        lemma_table_insert(before_push, before_push.len() as int, b);
                        assert(final(self).table() =~= t0.insert(key, slots1));
                    }
                    Ok(None)
                }
            },
        }
    }
}

/// `frames` are the on-wire frames of the chunk sequence `cs` under
/// opcode `op`, in ascending offset order, all sharing one 8-byte key.
pub open spec fn spec_sent_frames(
    frames: Seq<Seq<u8>>,
    mac: Seq<u8>,
    op: u8,
    cs: Seq<Seq<u8>>,
) -> bool {
    exists|key: Seq<u8>| key.len() == 8 && #[trigger] spec_frames_for(frames, mac, op, key, cs)
}

/// `frames` are exactly the on-wire frames of the chunk sequence `cs`
/// under opcode `op` and key `key`, in ascending offset order.
pub open spec fn spec_frames_for(
    frames: Seq<Seq<u8>>,
    mac: Seq<u8>,
    op: u8,
    key: Seq<u8>,
    cs: Seq<Seq<u8>>,
) -> bool {
    &&& frames.len() == cs.len()
    &&& forall|i: int| 0 <= i < cs.len() ==> frames[i] == spec_frame(
        mac,
        spec_app_bytes(op, i as u16, cs.len() as u16, key, cs[i]),
    )
}

/// Delivering a sequence of chunks into a bucket, front to back: the
/// chunk at offset `order[0]` is stored first, then the rest.
pub open spec fn spec_deliver(slots: Seq<Seq<u8>>, chunks: Seq<Seq<u8>>, order: Seq<int>) -> Seq<
    Seq<u8>,
>
    decreases order.len(),
{
    if order.len() == 0 {
        slots
    } else {
        spec_deliver(spec_store(slots, order[0], chunks[order[0]]), chunks, order.drop_first())
    }
}

/// Every slot is still unfilled or already holds its canonical chunk.
pub open spec fn spec_slots_partial(slots: Seq<Seq<u8>>, chunks: Seq<Seq<u8>>) -> bool {
    &&& slots.len() == chunks.len()
    &&& forall|i: int| 0 <= i < slots.len()
        ==> #[trigger] slots[i] == Seq::<u8>::empty() || slots[i] == chunks[i]
}

/// Storing chunks at their own offsets keeps every slot canonical, and
/// fills every offset the delivery covers.
proof fn lemma_deliver_invariant(slots: Seq<Seq<u8>>, chunks: Seq<Seq<u8>>, order: Seq<int>)
    requires
        spec_slots_partial(slots, chunks),
        forall|i: int| 0 <= i < order.len() ==> 0 <= #[trigger] order[i] < chunks.len(),
        forall|i: int| 0 <= i < chunks.len() ==> (#[trigger] chunks[i]).len() > 0,
    ensures
        spec_slots_partial(spec_deliver(slots, chunks, order), chunks),
        forall|j: int| 0 <= j < chunks.len() && (slots[j] == chunks[j] || order.contains(j))
            ==> #[trigger] spec_deliver(slots, chunks, order)[j] == chunks[j],
    decreases order.len(),
{
    if order.len() > 0 {
        let o0 = order[0];
        let slots1 = spec_store(slots, o0, chunks[o0]);
        assert(spec_slots_partial(slots1, chunks));
        lemma_deliver_invariant(slots1, chunks, order.drop_first());
        assert forall|j: int| 0 <= j < chunks.len() && (slots[j] == chunks[j] || order.contains(
            j,
        )) implies #[trigger] spec_deliver(slots, chunks, order)[j] == chunks[j] by {
            if slots[j] == chunks[j] {
                assert(slots1[j] == chunks[j]);
            } else {
                let w = choose|w: int| 0 <= w < order.len() && order[w] == j;
                if w == 0 {
                    assert(slots1[j] == chunks[j]);
                } else {
                    assert(order.drop_first()[w - 1] == j);
                    assert(order.drop_first().contains(j));
                }
            }
        }
    }
}

/// Reassembly is order-independent: delivering the chunks of one
/// serialized payload in any order that covers every offset, duplicates
/// allowed, fills the bucket with exactly the chunk sequence, so the
/// reassembled bytes equal the serialized bytes whatever the delivery
/// order; feeding the result to the payload decoder therefore yields the
/// same payload for every permutation.
pub proof fn lemma_reassembly_order_independent(bytes: Seq<u8>, order: Seq<int>)
    requires
        bytes.len() > 0,
        forall|i: int| 0 <= i < order.len()
            ==> 0 <= #[trigger] order[i] < spec_chunks(bytes).len(),
        forall|j: int| 0 <= j < spec_chunks(bytes).len() ==> order.contains(j),
    ensures
        spec_deliver(
            spec_empty_slots(spec_chunks(bytes).len() as int),
            spec_chunks(bytes),
            order,
        ) == spec_chunks(bytes),
        spec_concat(
            spec_deliver(
                spec_empty_slots(spec_chunks(bytes).len() as int),
                spec_chunks(bytes),
                order,
            ),
        ) == bytes,
{
    let chunks = spec_chunks(bytes);
    let empty = spec_empty_slots(chunks.len() as int);
    lemma_chunk_sizes(bytes);
    crate::codec::lemma_chunks_concat(bytes);
    assert(spec_slots_partial(empty, chunks));
    lemma_deliver_invariant(empty, chunks, order);
    assert(spec_deliver(empty, chunks, order) =~= chunks);
}

/// What each frame of a sequence yields when fed to reassembly in order.
pub open spec fn spec_run_outcomes(t: Map<Seq<u8>, Seq<Seq<u8>>>, fs: Seq<Seq<u8>>) -> Seq<
    RecvOutcome,
>
    decreases fs.len(),
{
    if fs.len() == 0 {
        Seq::empty()
    } else {
        seq![spec_recv_step(t, fs[0])] + spec_run_outcomes(spec_step_table(t, fs[0]), fs.drop_first())
    }
}

/// The frames of a payload arranged in a delivery order: position `i`
/// carries the chunk at offset `order[i]`.
pub open spec fn spec_frames_in(frames: Seq<Seq<u8>>, order: Seq<int>) -> Seq<Seq<u8>> {
    Seq::new(order.len(), |i: int| frames[order[i]])
}

/// A run yields one outcome per frame.
proof fn lemma_run_outcomes_len(t: Map<Seq<u8>, Seq<Seq<u8>>>, fs: Seq<Seq<u8>>)
    ensures
        spec_run_outcomes(t, fs).len() == fs.len(),
    decreases fs.len(),
{
    if fs.len() > 0 {
        lemma_run_outcomes_len(spec_step_table(t, fs[0]), fs.drop_first());
    }
}

/// The induction behind the run theorem: from a table whose bucket for
/// `key` is either absent or partially and canonically filled, every
/// completion in the rest of the run reassembles exactly `bytes`, and if
/// filling the current slots along the remaining order would complete
/// them, some frame of the run does complete.
proof fn lemma_run_from(
    t0: Map<Seq<u8>, Seq<Seq<u8>>>,
    t: Map<Seq<u8>, Seq<Seq<u8>>>,
    slots: Seq<Seq<u8>>,
    has_bucket: bool,
    bytes: Seq<u8>,
    cs: Seq<Seq<u8>>,
    mac: Seq<u8>,
    op: u8,
    key: Seq<u8>,
    frames: Seq<Seq<u8>>,
    order: Seq<int>,
)
    requires
        spec_frames_for(frames, mac, op, key, cs),
        mac.len() == 6,
        key.len() == 8,
        1 <= cs.len() < 65536,
        forall|i: int| 0 <= i < cs.len()
            ==> 0 < (#[trigger] cs[i]).len() && FLOODFILE_HEADER_SIZE + cs[i].len() <= MAX_APP_LEN,
        spec_concat(cs) == bytes,
        !t0.contains_key(key),
        forall|i: int| 0 <= i < order.len() ==> 0 <= #[trigger] order[i] < cs.len(),
        spec_slots_partial(slots, cs),
        !spec_complete(slots),
        has_bucket ==> t == t0.insert(key, slots),
        !has_bucket ==> t == t0 && slots == spec_empty_slots(cs.len() as int),
    ensures
        forall|j: int| 0 <= j < order.len()
            ==> ((#[trigger] spec_run_outcomes(t, spec_frames_in(frames, order))[j]) matches
                RecvOutcome::Completed(b) ==> b == bytes),
        spec_complete(spec_deliver(slots, cs, order)) ==> exists|j: int|
            0 <= j < order.len()
                && (#[trigger] spec_run_outcomes(t, spec_frames_in(frames, order))[j]) is Completed,
    decreases order.len(),
{
    let ds = spec_frames_in(frames, order);
    if order.len() == 0 {
        return;
    }
    let o = order[0];
    assert(ds[0] == frames[o]);
    crate::codec::lemma_frame_round_trip(mac, op, o as u16, cs.len() as u16, key, cs[o]);
    let rec = spec_parse_frame(ds[0]).unwrap();
    assert(rec.key == key && rec.op == op && rec.offset as int == o && rec.total as int
        == cs.len());

    let slots0 = if t.contains_key(key) {
        t[key]
    } else {
        spec_empty_slots(rec.total as int)
    };
    assert(slots0 == slots);
    let slots1 = spec_store(slots0, o, rec.data);
    assert(spec_slots_partial(slots1, cs));
    let outcome = spec_recv_step(t, ds[0]);
    let t1 = spec_step_table(t, ds[0]);
    assert(ds.drop_first() =~= spec_frames_in(frames, order.drop_first()));
    assert(spec_run_outcomes(t, ds) == seq![outcome] + spec_run_outcomes(t1, ds.drop_first()));
    lemma_run_outcomes_len(t, ds);
    lemma_run_outcomes_len(t1, ds.drop_first());
    assert(spec_deliver(slots, cs, order) == spec_deliver(slots1, cs, order.drop_first()));

    if spec_complete(slots1) {
        assert(slots1 =~= cs);
        assert(outcome == RecvOutcome::Completed(bytes));
        assert(t1 == t.remove(key));
        assert(t.remove(key) =~= t0);
        lemma_run_from(
            t0,
            t1,
            spec_empty_slots(cs.len() as int),
            false,
            bytes,
            cs,
            mac,
            op,
            key,
            frames,
            order.drop_first(),
        );
        assert(spec_run_outcomes(t, ds)[0] is Completed);
        assert forall|j: int| 0 <= j < order.len()
            implies ((#[trigger] spec_run_outcomes(t, ds)[j]) matches RecvOutcome::Completed(b)
                ==> b == bytes) by {
            if j > 0 {
                assert(spec_run_outcomes(t, ds)[j]
                    == spec_run_outcomes(t1, ds.drop_first())[j - 1]);
            }
        }
    } else {
        assert(outcome == RecvOutcome::Stored(slots1));
        assert(t1 == t.insert(key, slots1));
        assert(t1 =~= t0.insert(key, slots1));
        lemma_run_from(
            t0,
            t1,
            slots1,
            true,
            bytes,
            cs,
            mac,
            op,
            key,
            frames,
            order.drop_first(),
        );
        assert forall|j: int| 0 <= j < order.len()
            implies ((#[trigger] spec_run_outcomes(t, ds)[j]) matches RecvOutcome::Completed(b)
                ==> b == bytes) by {
            if j > 0 {
                assert(spec_run_outcomes(t, ds)[j]
                    == spec_run_outcomes(t1, ds.drop_first())[j - 1]);
            }
        }
        if spec_complete(spec_deliver(slots, cs, order)) {
            let j = choose|j: int|
                0 <= j < order.drop_first().len() && (#[trigger] spec_run_outcomes(
                    t1,
                    ds.drop_first(),
                )[j]) is Completed;
            assert(spec_run_outcomes(t, ds)[j + 1]
                == spec_run_outcomes(t1, ds.drop_first())[j]);
        }
    }
}

/// Reassembly through the receive transition itself is order-independent:
/// start from any table in which the payload's key is fresh and feed the
/// payload's frames in any order drawn from any permutation, duplicates
/// allowed. Every frame that completes the bucket reassembles exactly the
/// serialized bytes — the same bytes for every permutation — and if the
/// order covers every offset, some frame does complete it.
pub proof fn lemma_recv_run_order_independent(
    t0: Map<Seq<u8>, Seq<Seq<u8>>>,
    bytes: Seq<u8>,
    mac: Seq<u8>,
    op: u8,
    key: Seq<u8>,
    frames: Seq<Seq<u8>>,
    order: Seq<int>,
)
    requires
        bytes.len() > 0,
        mac.len() == 6,
        key.len() == 8,
        spec_chunks(bytes).len() < 65536,
        spec_frames_for(frames, mac, op, key, spec_chunks(bytes)),
        !t0.contains_key(key),
        forall|i: int| 0 <= i < order.len()
            ==> 0 <= #[trigger] order[i] < spec_chunks(bytes).len(),
    ensures
        spec_run_outcomes(t0, spec_frames_in(frames, order)).len() == order.len(),
        forall|j: int| 0 <= j < order.len()
            ==> ((#[trigger] spec_run_outcomes(t0, spec_frames_in(frames, order))[j]) matches
                RecvOutcome::Completed(b) ==> b == bytes),
        (forall|c: int| 0 <= c < spec_chunks(bytes).len() ==> order.contains(c)) ==> exists|
            j: int,
        |
            0 <= j < order.len() && (#[trigger] spec_run_outcomes(
                t0,
                spec_frames_in(frames, order),
            )[j]) is Completed,
{
    let cs = spec_chunks(bytes);
    lemma_chunk_sizes(bytes);
    crate::codec::lemma_chunks_concat(bytes);
    lemma_run_outcomes_len(t0, spec_frames_in(frames, order));
    let empty = spec_empty_slots(cs.len() as int);
    assert(cs.len() >= 1);
    assert(spec_slots_partial(empty, cs));
    assert(empty[0].len() == 0);
    assert(!spec_complete(empty));
    lemma_run_from(t0, t0, empty, false, bytes, cs, mac, op, key, frames, order);
    if forall|c: int| 0 <= c < cs.len() ==> order.contains(c) {
        lemma_deliver_invariant(empty, cs, order);
        assert(spec_complete(spec_deliver(empty, cs, order)));
    }
}

/// Every frame of a sent payload parses back to its own chunk: the
/// payload's opcode, its position as the offset, the shared total and
/// key, and the chunk's bytes. Together with the reassembly lemmas this
/// closes the loop from sending to receiving: parsing the frames yields
/// the chunk sequence, delivering them in any covering order restores
/// the serialized bytes, and those decode to the payload that was sent.
pub proof fn lemma_sent_frames_parse(
    frames: Seq<Seq<u8>>,
    mac: Seq<u8>,
    op: u8,
    key: Seq<u8>,
    cs: Seq<Seq<u8>>,
)
    requires
        spec_frames_for(frames, mac, op, key, cs),
        mac.len() == 6,
        key.len() == 8,
        cs.len() < 65536,
        forall|i: int| 0 <= i < cs.len()
            ==> FLOODFILE_HEADER_SIZE + (#[trigger] cs[i]).len() <= MAX_APP_LEN,
    ensures
        forall|i: int| 0 <= i < frames.len() ==> {
            let m = #[trigger] spec_parse_frame(frames[i]);
            &&& m is Some
            &&& m.unwrap().op == op
            &&& m.unwrap().offset == i as u16
            &&& m.unwrap().total == cs.len() as u16
            &&& m.unwrap().key == key
            &&& m.unwrap().data == cs[i]
        },
{
    assert forall|i: int| 0 <= i < frames.len() implies {
        let m = #[trigger] spec_parse_frame(frames[i]);
        &&& m is Some
        &&& m.unwrap().op == op
        &&& m.unwrap().offset == i as u16
        &&& m.unwrap().total == cs.len() as u16
        &&& m.unwrap().key == key
        &&& m.unwrap().data == cs[i]
    } by {
        crate::codec::lemma_frame_round_trip(mac, op, i as u16, cs.len() as u16, key, cs[i]);
    }
}

/// Relies on rand::random: draws a fresh 8-byte nonce. Nothing is
/// promised of the value; uniqueness holds only with overwhelming
/// probability, and no contract rests on it.
#[verifier::external_body]
fn random_key() -> (r: Key)
{
    rand::random::<[u8; 8]>()
}

/// Fresh slots for a payload of `total` chunks, all unfilled.
fn make_empty_slots(total: u16) -> (r: Vec<Vec<u8>>)
    ensures
        spec_views(r@) == spec_empty_slots(total as int),
{
    let mut r: Vec<Vec<u8>> = Vec::new();
    let mut i: usize = 0;
    while i < total as usize
        invariant
            0 <= i <= total as usize,
            r@.len() == i,
            forall|j: int| 0 <= j < i ==> (#[trigger] r@[j])@.len() == 0,
        decreases total as usize - i,
    {
        r.push(Vec::new());
        i = i + 1;
    }
    proof {
        assert(spec_views(r@) =~~= spec_empty_slots(total as int));
    }
    r
}

/// Whether every slot is filled.
fn all_filled(slots: &Vec<Vec<u8>>) -> (r: bool)
    ensures
        r == spec_complete(spec_views(slots@)),
{
    let mut i: usize = 0;
    while i < slots.len()
        invariant
            0 <= i <= slots@.len(),
            forall|j: int| 0 <= j < i ==> (#[trigger] slots@[j])@.len() > 0,
        decreases slots@.len() - i,
    {
        if slots[i].len() == 0 {
            proof {
                assert(spec_views(slots@)[i as int].len() == 0);
            }
            return false;
        }
        i = i + 1;
    }
    proof {
        assert forall|j: int| 0 <= j < spec_views(slots@).len()
            implies (#[trigger] spec_views(slots@)[j]).len() > 0 by {
            assert(spec_views(slots@)[j] == slots@[j]@);
        }
    }
    true
}

/// Concatenates all slots, in ascending offset order.
fn concat_slots(slots: &Vec<Vec<u8>>) -> (r: Vec<u8>)
    ensures
        r@ == spec_concat(spec_views(slots@)),
{
    let mut r: Vec<u8> = Vec::new();
    let mut i: usize = 0;
    proof {
        assert(spec_views(slots@).take(0) =~= Seq::<Seq<u8>>::empty());
    }
    while i < slots.len()
        invariant
            0 <= i <= slots@.len(),
            r@ == spec_concat(spec_views(slots@).take(i as int)),
        decreases slots@.len() - i,
    {
        crate::codec::push_bytes(&mut r, slots[i].as_slice());
        proof {
            let vs = spec_views(slots@);
            crate::codec::lemma_concat_push(vs.take(i as int), vs[i as int]);
            assert(vs.take(i as int).push(vs[i as int]) =~= vs.take(i + 1));
            assert(slots@[i as int]@ == vs[i as int]);
        }
        i = i + 1;
    }
    proof {
        assert(spec_views(slots@).take(slots@.len() as int) =~= spec_views(slots@));
    }
    r
}

} // verus!
