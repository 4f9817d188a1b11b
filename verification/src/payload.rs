//! The typed application payload and its byte encoding: a file transfer
//! (hash plus compressed bytes), an advertisement (a path string), or a
//! download request (a hash).

use vstd::prelude::*;
use vstd::utf8::{valid_utf8, decode_utf8, encode_utf8};
use crate::FileHash;

verus! {

broadcast use vstd::utf8::encode_utf8_valid_utf8, vstd::utf8::encode_utf8_decode_utf8;

/// A complete application-level message, before fragmentation or after
/// reassembly.
#[derive(Debug, PartialEq)]
pub enum Payload {
    /// The bytes of a requested file, content-addressed by its hash.
    File(FileHash, Vec<u8>),
    /// An offer to share the file at the given path.
    Advertise(String),
    /// A request for the file advertised under the given hash.
    DownloadRequest(FileHash),
}

/// Ghost image of a [`Payload`].
pub ghost enum PayloadModel {
    File(Seq<u8>, Seq<u8>),
    Advertise(Seq<char>),
    DownloadRequest(Seq<u8>),
}

impl View for Payload {
    type V = PayloadModel;

    open spec fn view(&self) -> PayloadModel {
        match self {
            Payload::File(hash, data) => PayloadModel::File(hash@, data@),
            Payload::Advertise(path) => PayloadModel::Advertise(path@),
            Payload::DownloadRequest(hash) => PayloadModel::DownloadRequest(hash@),
        }
    }
}

/// The block-compressed form of a byte string, with the decompressed
/// length prefixed. Stands for the output of
/// `lz4_flex::block::compress_prepend_size`, which depends on the input
/// bytes alone.
pub uninterp spec fn lz4_compress_of(data: Seq<u8>) -> Seq<u8>;

/// Whether a byte string decompresses as a length-prefixed block, and to
/// what. Stands for the outcome of
/// `lz4_flex::block::decompress_size_prepended`, which depends on the
/// input bytes alone.
pub uninterp spec fn lz4_decompress_of(data: Seq<u8>) -> Option<Seq<u8>>;

/// The decompressed-length prefix of an LZ4 block is a `u32`, so the
/// round trip holds only for inputs whose length fits one.
pub open spec fn spec_file_fits(m: PayloadModel) -> bool {
    match m {
        PayloadModel::File(_, data) => data.len() < 0x1_0000_0000,
        PayloadModel::Advertise(_) => true,
        PayloadModel::DownloadRequest(_) => true,
    }
}

/// Relies on lz4_flex::block::compress_prepend_size: the compressed block
/// is a function of the input bytes, and decompress_size_prepended is
/// documented to invert it. The prepended decompressed length is a
/// truncating `u32` cast, so inputs that overflow it are left out.
#[verifier::external_body]
fn lz4_compress(data: &[u8]) -> (r: Vec<u8>)
    requires
        data@.len() < 0x1_0000_0000,
    ensures
        r@ == lz4_compress_of(data@),
        lz4_decompress_of(r@) == Some(data@),
{
    lz4_flex::block::compress_prepend_size(data)
}

/// Relies on lz4_flex::block::decompress_size_prepended: whether a block
/// decompresses, and to what, is a function of the input bytes.
#[verifier::external_body]
fn lz4_decompress(data: &[u8]) -> (r: Option<Vec<u8>>)
    ensures
        (r is Some) == (lz4_decompress_of(data@) is Some),
        r is Some ==> r.unwrap()@ == lz4_decompress_of(data@).unwrap(),
{
    lz4_flex::block::decompress_size_prepended(data).ok()
}

/// Relies on str::from_utf8: it succeeds exactly on valid UTF-8 and
/// returns the character sequence those bytes encode.
#[verifier::external_body]
fn bytes_to_string(data: &[u8]) -> (r: Option<String>)
    ensures
        (r is Some) == valid_utf8(data@),
        r is Some ==> r.unwrap()@ == decode_utf8(data@),
{
    match core::str::from_utf8(data) {
        Ok(s) => Some(s.to_string()),
        Err(_) => None,
    }
}

/// The opcode under which a payload travels.
pub open spec fn spec_opcode(m: PayloadModel) -> u8 {
    match m {
        PayloadModel::File(_, _) => 0,
        PayloadModel::Advertise(_) => 1,
        PayloadModel::DownloadRequest(_) => 2,
    }
}

/// The serialized bytes of a payload: hash plus compressed data for a
/// file, UTF-8 bytes for an advertisement, the bare hash for a request.
pub open spec fn spec_serialize(m: PayloadModel) -> Seq<u8> {
    match m {
        PayloadModel::File(hash, data) => hash + lz4_compress_of(data),
        PayloadModel::Advertise(path) => encode_utf8(path),
        PayloadModel::DownloadRequest(hash) => hash,
    }
}

/// How reassembled bytes decode under an opcode, or fail to.
pub open spec fn spec_deserialize(opcode: u8, data: Seq<u8>) -> Option<PayloadModel> {
    if opcode == 0 {
        if data.len() < 16 {
            None
        } else {
            match lz4_decompress_of(data.skip(16)) {
                Some(file) => Some(PayloadModel::File(data.take(16), file)),
                None => None,
            }
        }
    } else if opcode == 1 {
        if valid_utf8(data) {
            Some(PayloadModel::Advertise(decode_utf8(data)))
        } else {
            None
        }
    } else if opcode == 2 {
        if data.len() < 16 {
            None
        } else {
            Some(PayloadModel::DownloadRequest(data.take(16)))
        }
    } else {
        None
    }
}

/// Copies the first 16 bytes of `data` into a fresh hash.
fn read_hash(data: &[u8]) -> (r: FileHash)
    requires
        data@.len() >= 16,
    ensures
        r@ == data@.take(16),
{
    let mut hash: FileHash = [0u8; 16];
    let mut i: usize = 0;
    while i < 16
        invariant
            0 <= i <= 16,
            data@.len() >= 16,
            forall|j: int| 0 <= j < i ==> hash@[j] == data@[j],
        decreases 16 - i,
    {
        hash[i] = data[i];
        i = i + 1;
    }
    proof {
        assert(hash@ =~= data@.take(16));
    }
    hash
}

impl Payload {
    /// The opcode under which this payload travels: 0 for a file, 1 for an
    /// advertisement, 2 for a download request.
    pub fn opcode(&self) -> (r: u8)
        ensures
            r == spec_opcode(self@),
    {
        match self {
            Payload::File(_, _) => 0,
            Payload::Advertise(_) => 1,
            Payload::DownloadRequest(_) => 2,
        }
    }

    /// Serializes the payload. The second clause is the codec round trip:
    /// the serialized bytes always decode back to this very payload under
    /// its own opcode. A file's bytes must fit LZ4's `u32` length prefix;
    /// larger-than-memory transfers are out of scope.
    pub fn serialize(&self) -> (r: Vec<u8>)
        requires
            spec_file_fits(self@),
        ensures
            r@ == spec_serialize(self@),
            spec_deserialize(spec_opcode(self@), r@) == Some(self@),
    {
        match self {
            Payload::File(hash, data) => {
                let compressed = lz4_compress(data.as_slice());
                let mut out: Vec<u8> = Vec::new();
                crate::codec::push_bytes(&mut out, hash.as_slice());
                crate::codec::push_bytes(&mut out, compressed.as_slice());
                proof {
                    assert(out@ =~= spec_serialize(self@));
                    assert(out@.take(16) =~= hash@);
                    assert(out@.skip(16) =~= lz4_compress_of(data@));
                }
                out
            },
            Payload::Advertise(path) => {
                let out = vstd::slice::slice_to_vec(path.as_str().as_bytes());
                out
            },
            Payload::DownloadRequest(hash) => {
                let out = vstd::slice::slice_to_vec(hash.as_slice());
                proof {
                    assert(out@.take(16) =~= hash@);
                }
                out
            },
        }
    }

    /// Decodes reassembled bytes under an opcode, mirroring
    /// [`spec_deserialize`].
    pub fn deserialize(opcode: u8, data: &[u8]) -> (r: Option<Payload>)
        ensures
            (r is Some) == (spec_deserialize(opcode, data@) is Some),
            r is Some ==> r.unwrap()@ == spec_deserialize(opcode, data@).unwrap(),
    {
        if opcode == 0 {
            if data.len() < 16 {
                return None;
            }
            let hash = read_hash(data);
            let rest = &data[16..data.len()];
            proof {
                assert(rest@ =~= data@.skip(16));
            }
            match lz4_decompress(rest) {
                Some(file) => Some(Payload::File(hash, file)),
                None => None,
            }
        } else if opcode == 1 {
            match bytes_to_string(data) {
                Some(path) => Some(Payload::Advertise(path)),
                None => None,
            }
        } else if opcode == 2 {
            if data.len() < 16 {
                return None;
            }
            let hash = read_hash(data);
            Some(Payload::DownloadRequest(hash))
        } else {
            None
        }
    }
}

} // verus!
