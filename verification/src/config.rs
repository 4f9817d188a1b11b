//! The application-level session state: which files this peer shares,
//! which files remote peers advertise, which downloads are outstanding,
//! and how commands and incoming payloads act on them.

use vstd::prelude::*;
use crate::{FileHash, hash_eq};
use crate::channel::{Channel, spec_sent_frames};
use crate::codec::{spec_chunks, spec_views};
use crate::errors::FloodFileError;
use crate::payload::{Payload, PayloadModel, spec_opcode, spec_serialize};
use crate::utils::{InterfaceInfo, compute_filehash, md5_of};

verus! {

/// What the session tells the user interface.
pub enum DisplayCommand {
    /// The user asked to share this path (sent by the UI to itself for
    /// validation before it reaches the session).
    AdvertiseFile(String),
    /// A remote peer advertises a new file.
    NewFile(String),
    /// The user picked another interface.
    ChangeInterface(String),
    /// Something to show the user.
    AlertUser(String),
}

/// What the user interface asks of the session.
pub enum NetworkCommand {
    /// Store downloaded files under this directory.
    UpdateLocalPath(String),
    /// Share the file at this path.
    AdvertiseFile(String),
    /// Download the file advertised under this path.
    RequestFile(String),
    /// Rebind to the interface with this name.
    ChangeInterface(String),
}

/// One entry of a hash-keyed file map.
pub struct FileEntry {
    pub hash: FileHash,
    pub path: String,
}

/// First index of the entry holding `h`, if any.
pub open spec fn spec_entry_index(es: Seq<FileEntry>, h: Seq<u8>) -> Option<int> {
    if exists|i: int| 0 <= i < es.len() && (#[trigger] es[i]).hash@ == h {
        Some(choose|i: int| 0 <= i < es.len() && (#[trigger] es[i]).hash@ == h)
    } else {
        None
    }
}

/// No two entries share a hash, so the map below is well defined.
pub open spec fn spec_unique_hashes(es: Seq<FileEntry>) -> bool {
    forall|i: int, j: int| 0 <= i < j < es.len()
        ==> (#[trigger] es[i]).hash@ != (#[trigger] es[j]).hash@
}

/// The map an entry sequence stands for.
pub open spec fn spec_entries_map(es: Seq<FileEntry>) -> Map<Seq<u8>, Seq<char>> {
    Map::new(
        |h: Seq<u8>| spec_entry_index(es, h) is Some,
        |h: Seq<u8>| es[spec_entry_index(es, h).unwrap()].path@,
    )
}

/// The set a hash sequence stands for.
pub open spec fn spec_hash_set(hs: Seq<FileHash>) -> Set<Seq<u8>> {
    Set::new(|h: Seq<u8>| exists|i: int| 0 <= i < hs.len() && (#[trigger] hs[i])@ == h)
}

/// With unique hashes, an entry's position is the index the map lookup
/// finds.
proof fn lemma_entry_index_unique(es: Seq<FileEntry>, i: int)
    requires
        spec_unique_hashes(es),
        0 <= i < es.len(),
    ensures
        spec_entry_index(es, es[i].hash@) == Some(i),
        spec_entries_map(es).contains_key(es[i].hash@),
        spec_entries_map(es)[es[i].hash@] == es[i].path@,
{
    let h = es[i].hash@;
    assert(exists|j: int| 0 <= j < es.len() && (#[trigger] es[j]).hash@ == h);
    let j = choose|j: int| 0 <= j < es.len() && (#[trigger] es[j]).hash@ == h;
    if j != i {
        if j < i {
            assert(es[j].hash@ != es[i].hash@);
        } else {
            assert(es[i].hash@ != es[j].hash@);
        }
    }
}

/// Replacing the entry that holds `h` updates exactly that key.
proof fn lemma_entries_update(es: Seq<FileEntry>, i: int, e: FileEntry)
    requires
        spec_unique_hashes(es),
        0 <= i < es.len(),
        es[i].hash@ == e.hash@,
    ensures
        spec_unique_hashes(es.update(i, e)),
        spec_entries_map(es.update(i, e)) == spec_entries_map(es).insert(e.hash@, e.path@),
{
    let es2 = es.update(i, e);
    assert forall|k: Seq<u8>| true implies #[trigger] spec_entries_map(es2).contains_key(k)
        == spec_entries_map(es).insert(e.hash@, e.path@).contains_key(k) by {
        if k == e.hash@ {
            assert(es2[i].hash@ == k);
            assert(spec_entry_index(es2, k) is Some);
        } else {
            if spec_entry_index(es, k) is Some {
                let j = choose|j: int| 0 <= j < es.len() && (#[trigger] es[j]).hash@ == k;
                assert(es2[j].hash@ == k);
                assert(spec_entry_index(es2, k) is Some);
            }
            if spec_entry_index(es2, k) is Some {
                let j = choose|j: int| 0 <= j < es2.len() && (#[trigger] es2[j]).hash@ == k;
                assert(es[j].hash@ == k);
                assert(spec_entry_index(es, k) is Some);
            }
        }
    }
    assert forall|k: Seq<u8>| spec_entries_map(es2).contains_key(k)
        implies #[trigger] spec_entries_map(es2)[k]
            == spec_entries_map(es).insert(e.hash@, e.path@)[k] by {
        let j = choose|j: int| 0 <= j < es2.len() && (#[trigger] es2[j]).hash@ == k;
        lemma_entry_index_unique(es2, j);
        if k == e.hash@ {
            lemma_entry_index_unique(es2, i);
        } else {
            assert(es[j] == es2[j]);
            lemma_entry_index_unique(es, j);
        }
    }
    assert(spec_entries_map(es2) =~= spec_entries_map(es).insert(e.hash@, e.path@));
}

/// Appending an entry with a fresh hash inserts exactly that key.
proof fn lemma_entries_push(es: Seq<FileEntry>, e: FileEntry)
    requires
        spec_unique_hashes(es),
        forall|j: int| 0 <= j < es.len() ==> (#[trigger] es[j]).hash@ != e.hash@,
    ensures
        spec_unique_hashes(es.push(e)),
        spec_entries_map(es.push(e)) == spec_entries_map(es).insert(e.hash@, e.path@),
{
    let es2 = es.push(e);
    let n = es.len() as int;
    assert(es2[n] == e);
    assert forall|a: int, b: int| 0 <= a < b < es2.len()
        implies (#[trigger] es2[a]).hash@ != (#[trigger] es2[b]).hash@ by {
        if b < n {
            assert(es2[a] == es[a] && es2[b] == es[b]);
        } else {
            assert(es2[a] == es[a] && es2[b] == e);
        }
    }
    assert forall|k: Seq<u8>| true implies #[trigger] spec_entries_map(es2).contains_key(k)
        == spec_entries_map(es).insert(e.hash@, e.path@).contains_key(k) by {
        if k == e.hash@ {
            assert(es2[n].hash@ == k);
            assert(spec_entry_index(es2, k) is Some);
        } else {
            if spec_entry_index(es, k) is Some {
                let j = choose|j: int| 0 <= j < es.len() && (#[trigger] es[j]).hash@ == k;
                assert(es2[j].hash@ == k);
                assert(spec_entry_index(es2, k) is Some);
            }
            if spec_entry_index(es2, k) is Some {
                let j = choose|j: int| 0 <= j < es2.len() && (#[trigger] es2[j]).hash@ == k;
                assert(j < n);
                assert(es[j].hash@ == k);
                assert(spec_entry_index(es, k) is Some);
            }
        }
    }
    assert forall|k: Seq<u8>| spec_entries_map(es2).contains_key(k)
        implies #[trigger] spec_entries_map(es2)[k]
            == spec_entries_map(es).insert(e.hash@, e.path@)[k] by {
        let j = choose|j: int| 0 <= j < es2.len() && (#[trigger] es2[j]).hash@ == k;
        lemma_entry_index_unique(es2, j);
        if k == e.hash@ {
            lemma_entry_index_unique(es2, n);
        } else {
            assert(j < n);
            assert(es[j] == es2[j]);
            lemma_entry_index_unique(es, j);
        }
    }
    assert(spec_entries_map(es2) =~= spec_entries_map(es).insert(e.hash@, e.path@));
}

/// Appending a hash adds exactly it to the set.
proof fn lemma_hashes_push(hs: Seq<FileHash>, h: FileHash)
    ensures
        spec_hash_set(hs.push(h)) == spec_hash_set(hs).insert(h@),
{
    let hs2 = hs.push(h);
    let n = hs.len() as int;
    assert forall|k: Seq<u8>| true implies #[trigger] spec_hash_set(hs2).contains(k)
        == spec_hash_set(hs).insert(h@).contains(k) by {
        if k == h@ {
            assert(hs2[n]@ == k);
        } else {
            if spec_hash_set(hs).contains(k) {
                let j = choose|j: int| 0 <= j < hs.len() && (#[trigger] hs[j])@ == k;
                assert(hs2[j]@ == k);
            }
            if spec_hash_set(hs2).contains(k) {
                let j = choose|j: int| 0 <= j < hs2.len() && (#[trigger] hs2[j])@ == k;
                assert(j < n);
                assert(hs[j]@ == k);
            }
        }
    }
    assert(spec_hash_set(hs2) =~= spec_hash_set(hs).insert(h@));
}

/// Removing the only position holding a hash removes exactly it from the
/// set.
proof fn lemma_hashes_remove(hs: Seq<FileHash>, i: int)
    requires
        0 <= i < hs.len(),
        forall|j: int| 0 <= j < hs.len() && j != i ==> (#[trigger] hs[j])@ != hs[i]@,
    ensures
        spec_hash_set(hs.remove(i)) == spec_hash_set(hs).remove(hs[i]@),
{
    let hs2 = hs.remove(i);
    assert forall|k: Seq<u8>| true implies #[trigger] spec_hash_set(hs2).contains(k)
        == spec_hash_set(hs).remove(hs[i]@).contains(k) by {
        if k == hs[i]@ {
            if spec_hash_set(hs2).contains(k) {
                let j = choose|j: int| 0 <= j < hs2.len() && (#[trigger] hs2[j])@ == k;
                let j0 = if j < i { j } else { j + 1 };
                assert(hs2[j] == hs[j0]);
            }
        } else {
            if spec_hash_set(hs).contains(k) {
                let j = choose|j: int| 0 <= j < hs.len() && (#[trigger] hs[j])@ == k;
                let j2 = if j < i { j } else { j - 1 };
                assert(hs2[j2] == hs[j]);
            }
            if spec_hash_set(hs2).contains(k) {
                let j = choose|j: int| 0 <= j < hs2.len() && (#[trigger] hs2[j])@ == k;
                let j0 = if j < i { j } else { j + 1 };
                assert(hs2[j] == hs[j0]);
            }
        }
    }
    assert(spec_hash_set(hs2) =~= spec_hash_set(hs).remove(hs[i]@));
}

/// First position of the entry holding `hash`, if one exists.
fn find_entry(es: &Vec<FileEntry>, hash: &FileHash) -> (r: Option<usize>)
    ensures
        match r {
            Some(i) => i < es@.len() && es@[i as int].hash@ == hash@,
            None => forall|i: int| 0 <= i < es@.len() ==> (#[trigger] es@[i]).hash@ != hash@,
        },
{
    let mut i: usize = 0;
    while i < es.len()
        invariant
            0 <= i <= es@.len(),
            forall|j: int| 0 <= j < i ==> (#[trigger] es@[j]).hash@ != hash@,
        decreases es@.len() - i,
    {
        if hash_eq(&es[i].hash, hash) {
            return Some(i);
        }
        i = i + 1;
    }
    None
}

/// Inserts or replaces the entry for `hash`.
fn entries_insert(es: &mut Vec<FileEntry>, hash: FileHash, path: String)
    requires
        spec_unique_hashes(old(es)@),
    ensures
        spec_unique_hashes(final(es)@),
        spec_entries_map(final(es)@) == spec_entries_map(old(es)@).insert(hash@, path@),
{
    let e = FileEntry { hash, path };
    match find_entry(es, &e.hash) {
        Some(i) => {
            let ghost before = es@;
            es[i] = e;
            proof {
                lemma_entries_update(before, i as int, es@[i as int]);
            }
        },
        None => {
            let ghost before = es@;
            es.push(e);
            proof {
                lemma_entries_push(before, es@.last());
            }
        },
    }
}

/// The path stored under `hash`, if any.
fn entries_get(es: &Vec<FileEntry>, hash: &FileHash) -> (r: Option<String>)
    requires
        spec_unique_hashes(es@),
    ensures
        (r is Some) == spec_entries_map(es@).contains_key(hash@),
        r matches Some(p) ==> p@ == spec_entries_map(es@)[hash@],
{
    match find_entry(es, hash) {
        Some(i) => {
            proof {
                lemma_entry_index_unique(es@, i as int);
            }
            Some(es[i].path.clone())
        },
        None => {
            proof {
                assert(spec_entry_index(es@, hash@) is None);
            }
            None
        },
    }
}

/// First position of `hash` in the request list, if present.
fn find_hash(hs: &Vec<FileHash>, hash: &FileHash) -> (r: Option<usize>)
    ensures
        match r {
            Some(i) => i < hs@.len() && hs@[i as int]@ == hash@,
            None => forall|i: int| 0 <= i < hs@.len() ==> (#[trigger] hs@[i])@ != hash@,
        },
{
    let mut i: usize = 0;
    while i < hs.len()
        invariant
            0 <= i <= hs@.len(),
            forall|j: int| 0 <= j < i ==> (#[trigger] hs@[j])@ != hash@,
        decreases hs@.len() - i,
    {
        if hash_eq(&hs[i], hash) {
            return Some(i);
        }
        i = i + 1;
    }
    None
}

/// No hash occurs twice in the request list.
pub open spec fn spec_unique_set(hs: Seq<FileHash>) -> bool {
    forall|i: int, j: int| 0 <= i < j < hs.len() ==> (#[trigger] hs[i])@ != (#[trigger] hs[j])@
}

/// Adds `hash` to the request list if it is not there yet.
fn hashes_insert(hs: &mut Vec<FileHash>, hash: FileHash)
    requires
        spec_unique_set(old(hs)@),
    ensures
        spec_unique_set(final(hs)@),
        spec_hash_set(final(hs)@) == spec_hash_set(old(hs)@).insert(hash@),
{
    match find_hash(hs, &hash) {
        Some(_) => {
            proof {
                assert(spec_hash_set(hs@).contains(hash@));
                assert(spec_hash_set(hs@).insert(hash@) =~= spec_hash_set(hs@));
            }
        },
        None => {
            let ghost before = hs@;
            hs.push(hash);
            proof {
                lemma_hashes_push(before, hash);
                assert forall|a: int, b: int| 0 <= a < b < hs@.len()
                    implies (#[trigger] hs@[a])@ != (#[trigger] hs@[b])@ by {
                    if b < before.len() {
                        assert(hs@[a] == before[a] && hs@[b] == before[b]);
                    } else {
                        assert(hs@[a] == before[a] && hs@[b] == hash);
                    }
                }
            }
        },
    }
}

/// Whether `hash` is in the request list.
fn hashes_contains(hs: &Vec<FileHash>, hash: &FileHash) -> (r: bool)
    ensures
        r == spec_hash_set(hs@).contains(hash@),
{
    match find_hash(hs, hash) {
        Some(_) => true,
        None => false,
    }
}

/// Whether an entry for `hash` exists.
fn entries_contains(es: &Vec<FileEntry>, hash: &FileHash) -> (r: bool)
    ensures
        r == spec_entries_map(es@).contains_key(hash@),
{
    match find_entry(es, hash) {
        Some(i) => {
            proof {
                assert(spec_entry_index(es@, hash@) is Some);
            }
            true
        },
        None => {
            proof {
                assert(spec_entry_index(es@, hash@) is None);
            }
            false
        },
    }
}

/// Drops `hash` from the request list, if present.
fn hashes_remove(hs: &mut Vec<FileHash>, hash: &FileHash)
    requires
        spec_unique_set(old(hs)@),
    ensures
        spec_unique_set(final(hs)@),
        spec_hash_set(final(hs)@) == spec_hash_set(old(hs)@).remove(hash@),
{
    match find_hash(hs, hash) {
        Some(i) => {
            let ghost before = hs@;
            hs.remove(i);
            proof {
                assert forall|j: int| 0 <= j < before.len() && j != i
                    implies (#[trigger] before[j])@ != before[i as int]@ by {
                    if j < i {
                        assert(before[j]@ != before[i as int]@);
                    } else {
                        assert(before[i as int]@ != before[j]@);
                    }
                }
                lemma_hashes_remove(before, i as int);
                assert forall|a: int, b: int| 0 <= a < b < hs@.len()
                    implies (#[trigger] hs@[a])@ != (#[trigger] hs@[b])@ by {
                    let a0 = if a < i { a } else { a + 1 };
                    let b0 = if b < i { b } else { b + 1 };
                    assert(hs@[a] == before[a0] && hs@[b] == before[b0]);
                }
            }
        },
        None => {
            proof {
                assert(!spec_hash_set(hs@).contains(hash@));
                assert(spec_hash_set(hs@).remove(hash@) =~= spec_hash_set(hs@));
            }
        },
    }
}

/// An incoming advertisement is dropped when its hash is already known,
/// as a remote offer or as one of our own.
pub open spec fn spec_advertise_drops(
    shared: Map<Seq<u8>, Seq<char>>,
    sharing: Map<Seq<u8>, Seq<char>>,
    h: Seq<u8>,
) -> bool {
    shared.contains_key(h) || sharing.contains_key(h)
}

/// Dedup law: an advertisement that is not dropped puts its hash into the
/// shared map, so every repetition of the same advertisement is dropped
/// and emits no further event — N identical advertisements produce at
/// most one.
pub proof fn lemma_advertise_dedup(
    shared: Map<Seq<u8>, Seq<char>>,
    sharing: Map<Seq<u8>, Seq<char>>,
    h: Seq<u8>,
    path: Seq<char>,
)
    requires
        !spec_advertise_drops(shared, sharing, h),
    ensures
        spec_advertise_drops(shared.insert(h, path), sharing, h),
{
}

/// A completed download, ready to be written to disk by the caller:
/// `data` goes to `<dir>/<basename of advertised_path>`.
pub struct SaveTask {
    pub dir: String,
    pub advertised_path: String,
    pub data: Vec<u8>,
}

/// The session state: the channel, the files remote peers advertise
/// (`shared`), the files this peer offers (`sharing`), and the hashes of
/// outstanding download requests.
pub struct Config {
    pub channel: Channel,
    pub shared: Vec<FileEntry>,
    pub sharing: Vec<FileEntry>,
    pub requested: Vec<FileHash>,
}

impl Config {
    /// The maps are hash-keyed without duplicates, and the channel's
    /// reassembly table is well formed.
    pub open spec fn wf(self) -> bool {
        &&& self.channel.wf()
        &&& spec_unique_hashes(self.shared@)
        &&& spec_unique_hashes(self.sharing@)
        &&& spec_unique_set(self.requested@)
    }

    /// Hash to path, for files remote peers advertise.
    pub open spec fn shared_map(self) -> Map<Seq<u8>, Seq<char>> {
        spec_entries_map(self.shared@)
    }

    /// Hash to path, for files this peer offers.
    pub open spec fn sharing_map(self) -> Map<Seq<u8>, Seq<char>> {
        spec_entries_map(self.sharing@)
    }

    /// The hashes this peer has asked for and not yet received.
    pub open spec fn requested_set(self) -> Set<Seq<u8>> {
        spec_hash_set(self.requested@)
    }

    /// Fresh session state over the head of the usable-interface list.
    pub fn new(interfaces: Vec<InterfaceInfo>, default_path: String) -> (r: Config)
        requires
            interfaces@.len() > 0,
            interfaces@[0]@.mac is Some,
        ensures
            r.wf(),
            r.shared_map() == Map::<Seq<u8>, Seq<char>>::empty(),
            r.sharing_map() == Map::<Seq<u8>, Seq<char>>::empty(),
            r.requested_set() == Set::<Seq<u8>>::empty(),
            r.channel.table() == Map::<Seq<u8>, Seq<Seq<u8>>>::empty(),
            r.channel.interface_model() == interfaces@[0]@,
            r.channel.path() == default_path@,
    {
        let mut interfaces = interfaces;
        let interface = interfaces.remove(0);
        Config::from(interface, default_path)
    }

    /// Fresh session state over one interface. Switching interfaces
    /// replaces the whole state through this: the advertised, offered
    /// and requested maps all start empty, so the user's available-files
    /// view stays empty until a new advertisement arrives.
    pub fn from(interface: InterfaceInfo, default_path: String) -> (r: Config)
        requires
            interface@.mac is Some,
        ensures
            r.wf(),
            r.shared_map() == Map::<Seq<u8>, Seq<char>>::empty(),
            r.sharing_map() == Map::<Seq<u8>, Seq<char>>::empty(),
            r.requested_set() == Set::<Seq<u8>>::empty(),
            r.channel.table() == Map::<Seq<u8>, Seq<Seq<u8>>>::empty(),
            r.channel.interface_model() == interface@,
            r.channel.mac() == interface@.mac.unwrap(),
            r.channel.path() == default_path@,
    {
        let r = Config {
            channel: Channel::new(interface, default_path),
            shared: Vec::new(),
            sharing: Vec::new(),
            requested: Vec::new(),
        };
        proof {
            assert(r.shared_map() =~= Map::<Seq<u8>, Seq<char>>::empty());
            assert(r.sharing_map() =~= Map::<Seq<u8>, Seq<char>>::empty());
            assert(r.requested_set() =~= Set::<Seq<u8>>::empty());
        }
        r
    }

    /// Offers a file: records it under the hash of its path and builds
    /// the frames of the advertisement to broadcast. The file is
    /// recorded even if building the frames fails.
    pub fn advertise_file(&mut self, filepath: String) -> (r: Result<Vec<Vec<u8>>, FloodFileError>)
        requires
            old(self).wf(),
        ensures
            final(self).wf(),
            final(self).sharing_map() == old(self).sharing_map().insert(
                md5_of(filepath@),
                filepath@,
            ),
            final(self).shared == old(self).shared,
            final(self).requested == old(self).requested,
            final(self).channel == old(self).channel,
            (r is Ok) == (spec_chunks(
                spec_serialize(PayloadModel::Advertise(filepath@)),
            ).len() <= 65535),
            r matches Err(e) ==> e == FloodFileError::FileTooLarge,
            r matches Ok(frames) ==> spec_sent_frames(
                spec_views(frames@),
                old(self).channel.mac(),
                spec_opcode(PayloadModel::Advertise(filepath@)),
                spec_chunks(spec_serialize(PayloadModel::Advertise(filepath@))),
            ),
    {
        let hash = match compute_filehash(&filepath) {
            Ok(h) => h,
            Err(e) => {
                proof {
                    assert(false);
                }
                return Err(e);
            },
        };
        entries_insert(&mut self.sharing, hash, filepath.clone());
        self.channel.send(Payload::Advertise(filepath))
    }

    /// Asks for a file: records the hash of its path as outstanding and
    /// builds the frames of the download request to broadcast. A bare
    /// hash always fits one chunk, so this never fails.
    pub fn request_file(&mut self, filepath: String) -> (r: Result<Vec<Vec<u8>>, FloodFileError>)
        requires
            old(self).wf(),
        ensures
            final(self).wf(),
            final(self).requested_set() == old(self).requested_set().insert(md5_of(filepath@)),
            final(self).shared == old(self).shared,
            final(self).sharing == old(self).sharing,
            final(self).channel == old(self).channel,
            r is Ok,
            r matches Ok(frames) ==> spec_sent_frames(
                spec_views(frames@),
                old(self).channel.mac(),
                spec_opcode(PayloadModel::DownloadRequest(md5_of(filepath@))),
                spec_chunks(spec_serialize(PayloadModel::DownloadRequest(md5_of(filepath@)))),
            ),
    {
        let hash = match compute_filehash(&filepath) {
            Ok(h) => h,
            Err(e) => {
                proof {
                    assert(false);
                }
                return Err(e);
            },
        };
        hashes_insert(&mut self.requested, hash);
        self.channel.send(Payload::DownloadRequest(hash))
    }

    /// Sets the storage directory, or rejects a path the caller found
    /// not to be a directory; the state is untouched on rejection.
    pub fn update_local_path(&mut self, path: String, is_dir: bool) -> (r: Result<
        (),
        FloodFileError,
    >)
        requires
            old(self).wf(),
        ensures
            final(self).wf(),
            final(self).shared == old(self).shared,
            final(self).sharing == old(self).sharing,
            final(self).requested == old(self).requested,
            final(self).channel.table() == old(self).channel.table(),
            final(self).channel.mac() == old(self).channel.mac(),
            final(self).channel.interface_model() == old(self).channel.interface_model(),
            is_dir ==> r is Ok && final(self).channel.path() == path@,
            !is_dir ==> final(self).channel == old(self).channel && (r matches Err(e)
                && e == FloodFileError::InvalidDestinationPath),
    {
        if !is_dir {
            return Err(FloodFileError::InvalidDestinationPath);
        }
        match self.channel.set_path(&path) {
            Ok(u) => Ok(u),
            Err(e) => {
                proof {
                    assert(false);
                }
                Err(e)
            },
        }
    }

    /// Takes an incoming advertisement: deduplicates by hash against
    /// both maps, records a new offer under the advertised path, and
    /// says what to tell the user — one `NewFile` event for the first
    /// sight of a hash, nothing for any repetition.
    pub fn handle_advertise(&mut self, filepath: String) -> (r: Option<DisplayCommand>)
        requires
            old(self).wf(),
        ensures
            final(self).wf(),
            final(self).sharing == old(self).sharing,
            final(self).requested == old(self).requested,
            final(self).channel == old(self).channel,
            spec_advertise_drops(
                old(self).shared_map(),
                old(self).sharing_map(),
                md5_of(filepath@),
            ) ==> r is None && final(self).shared == old(self).shared,
            !spec_advertise_drops(
                old(self).shared_map(),
                old(self).sharing_map(),
                md5_of(filepath@),
            ) ==> {
                &&& r matches Some(c) && c matches DisplayCommand::NewFile(p) && p@ == filepath@
                &&& final(self).shared_map() == old(self).shared_map().insert(
                    md5_of(filepath@),
                    filepath@,
                )
            },
    {
        let hash = match compute_filehash(&filepath) {
            Ok(h) => h,
            Err(_) => {
                proof {
                    assert(false);
                }
                return None;
            },
        };
        if entries_contains(&self.shared, &hash) || entries_contains(&self.sharing, &hash) {
            return None;
        }
        entries_insert(&mut self.shared, hash, filepath.clone());
        Some(DisplayCommand::NewFile(filepath))
    }

    /// Takes an incoming download request: if this peer offers the hash,
    /// hands back the local path whose bytes the caller should read and
    /// then pass to [`Config::serve_file`]; an unknown hash is ignored.
    pub fn handle_download_request(&self, hash: FileHash) -> (r: Option<String>)
        requires
            self.wf(),
        ensures
            (r is Some) == self.sharing_map().contains_key(hash@),
            r matches Some(p) ==> p@ == self.sharing_map()[hash@],
    {
        entries_get(&self.sharing, &hash)
    }

    /// Builds the frames that carry a file's bytes to whoever requested
    /// it. The bytes must fit LZ4's `u32` length prefix;
    /// larger-than-memory transfers are out of scope.
    pub fn serve_file(&self, hash: FileHash, data: Vec<u8>) -> (r: Result<
        Vec<Vec<u8>>,
        FloodFileError,
    >)
        requires
            data@.len() < 0x1_0000_0000,
        ensures
            (r is Ok) == (spec_chunks(
                spec_serialize(PayloadModel::File(hash@, data@)),
            ).len() <= 65535),
            r matches Err(e) ==> e == FloodFileError::FileTooLarge,
            r matches Ok(frames) ==> spec_sent_frames(
                spec_views(frames@),
                self.channel.mac(),
                spec_opcode(PayloadModel::File(hash@, data@)),
                spec_chunks(spec_serialize(PayloadModel::File(hash@, data@))),
            ),
    {
        self.channel.send(Payload::File(hash, data))
    }

    /// Takes an incoming file: the request gate. A hash this peer never
    /// asked for is dropped without any effect, so an unsolicited file
    /// can never cause a disk write. A requested hash is marked
    /// received, and if it is known in the shared map, the bytes come
    /// back as a [`SaveTask`] for the caller to write.
    pub fn handle_file(&mut self, hash: FileHash, data: Vec<u8>) -> (r: Option<SaveTask>)
        requires
            old(self).wf(),
        ensures
            final(self).wf(),
            final(self).shared == old(self).shared,
            final(self).sharing == old(self).sharing,
            final(self).channel == old(self).channel,
            !old(self).requested_set().contains(hash@) ==> r is None && final(self).requested
                == old(self).requested,
            old(self).requested_set().contains(hash@) ==> {
                &&& final(self).requested_set() == old(self).requested_set().remove(hash@)
                &&& (r is Some) == old(self).shared_map().contains_key(hash@)
                &&& r matches Some(t) ==> t.dir@ == old(self).channel.path()
                    && t.advertised_path@ == old(self).shared_map()[hash@] && t.data@ == data@
            },
    {
        if !hashes_contains(&self.requested, &hash) {
            return None;
        }
        hashes_remove(&mut self.requested, &hash);
        match entries_get(&self.shared, &hash) {
            Some(p) => Some(
                SaveTask { dir: self.channel.get_path(), advertised_path: p, data },
            ),
            None => None,
        }
    }
}

} // verus!
