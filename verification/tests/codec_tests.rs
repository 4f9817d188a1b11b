use floodfile::channel::Channel;
use floodfile::codec::parse_frame;
use floodfile::errors::FloodFileError;
use floodfile::payload::Payload;
use floodfile::utils::InterfaceInfo;

fn test_iface() -> InterfaceInfo {
    InterfaceInfo {
        name: String::from("eth0"),
        mac: Some([0x02, 0x11, 0x22, 0x33, 0x44, 0x55]),
        ip_count: 1,
    }
}

fn test_channel() -> Channel {
    Channel::new(test_iface(), String::from("/tmp"))
}

fn pseudo_random_bytes(n: usize) -> Vec<u8> {
    let mut out = Vec::with_capacity(n);
    let mut x: u64 = 0x853c49e6748fea9b;
    for _ in 0..n {
        x = x.wrapping_mul(6364136223846793005).wrapping_add(1442695040888963407);
        out.push((x >> 33) as u8);
    }
    out
}

#[test]
fn advertise_payload_round_trip() {
    let p = Payload::Advertise(String::from("/tmp/a.txt"));
    let bytes = p.serialize();
    assert_eq!(bytes, String::from("/tmp/a.txt").into_bytes());
    let q = Payload::deserialize(p.opcode(), &bytes).unwrap();
    assert_eq!(q, p);
}

#[test]
fn advertise_payload_round_trip_multibyte() {
    let p = Payload::Advertise(String::from("/tmp/héllo → päth"));
    let bytes = p.serialize();
    let q = Payload::deserialize(1, &bytes).unwrap();
    assert_eq!(q, p);
}

#[test]
fn download_request_payload_round_trip() {
    let hash: [u8; 16] = [9, 8, 7, 6, 5, 4, 3, 2, 1, 0, 11, 12, 13, 14, 15, 16];
    let p = Payload::DownloadRequest(hash);
    let bytes = p.serialize();
    assert_eq!(bytes, hash.to_vec());
    let q = Payload::deserialize(2, &bytes).unwrap();
    assert_eq!(q, p);
}

#[test]
fn file_payload_round_trip() {
    let hash: [u8; 16] = [1; 16];
    let data = b"hello".to_vec();
    let p = Payload::File(hash, data.clone());
    let bytes = p.serialize();
    assert_eq!(p.opcode(), 0);
    // first 16 bytes are the hash, the rest is the lz4 block
    assert_eq!(&bytes[..16], &hash);
    assert_eq!(&bytes[16..], &lz4_flex::block::compress_prepend_size(&data)[..]);
    let q = Payload::deserialize(0, &bytes).unwrap();
    assert_eq!(q, p);
}

#[test]
fn file_payload_compression_is_real() {
    // a long run compresses far below its own length, so the wire bytes
    // cannot be the input handed back unchanged
    let data = vec![7u8; 10_000];
    let p = Payload::File([0; 16], data);
    let bytes = p.serialize();
    assert!(bytes.len() < 1_000);
    match Payload::deserialize(0, &bytes).unwrap() {
        Payload::File(_, d) => assert_eq!(d.len(), 10_000),
        other => panic!("wrong payload: {:?}", other),
    }
}

#[test]
fn deserialize_rejects_bad_input() {
    assert!(Payload::deserialize(0, &[0u8; 10]).is_none());
    assert!(Payload::deserialize(0, &[0u8; 17]).is_none());
    assert!(Payload::deserialize(2, &[0u8; 15]).is_none());
    assert!(Payload::deserialize(3, &[0u8; 32]).is_none());
    assert!(Payload::deserialize(1, &[0xffu8, 0xfe]).is_none());
}

#[test]
fn single_chunk_frame_shape() {
    let ch = test_channel();
    let frames = ch.send(Payload::Advertise(String::from("/tmp/a.txt"))).unwrap();
    assert_eq!(frames.len(), 1);
    let f = &frames[0];
    // broadcast destination, our source, ARP ethertype
    assert_eq!(&f[0..6], &[0xff; 6]);
    assert_eq!(&f[6..12], &[0x02, 0x11, 0x22, 0x33, 0x44, 0x55]);
    assert_eq!(&f[12..14], &[0x08, 0x06]);
    // ARP: hardware type 1, protocol 0x0800, hardware size 6, opcode 1
    assert_eq!(&f[14..16], &[0x00, 0x01]);
    assert_eq!(&f[16..18], &[0x08, 0x00]);
    assert_eq!(f[18], 0x06);
    assert_eq!(&f[20..22], &[0x00, 0x01]);
    // the length byte covers the preamble and the application body
    let l = f[19] as usize;
    assert_eq!(l, 17 + "/tmp/a.txt".len());
    assert_eq!(f.len(), 34 + 2 * l);
    // preamble and duplicated application bytes
    assert_eq!(&f[28..32], b"file");
    assert_eq!(&f[28..28 + l], &f[34 + l..34 + 2 * l]);
    let rec = parse_frame(f).unwrap();
    assert_eq!(rec.op, 1);
    assert_eq!(rec.offset, 0);
    assert_eq!(rec.total, 1);
    assert_eq!(rec.data, String::from("/tmp/a.txt").into_bytes());
}

#[test]
fn chunk_budget_holds_for_every_frame() {
    let ch = test_channel();
    let long_path: String = "x".repeat(1000);
    let frames = ch.send(Payload::Advertise(long_path)).unwrap();
    assert_eq!(frames.len(), (1000 + 237) / 238);
    for f in &frames {
        let l = f[19] as usize;
        assert!(l <= 255);
        let rec = parse_frame(f).unwrap();
        assert!(rec.data.len() + 17 <= 255);
        assert_eq!(rec.data.len() + 17, l);
    }
}

#[test]
fn send_chunk_rejects_oversized_body() {
    let ch = test_channel();
    let r = ch.send_chunk(0, 0, 1, [0; 8], &[0u8; 239]);
    assert!(matches!(r, Err(FloodFileError::PacketTooLarge)));
    let ok = ch.send_chunk(0, 0, 1, [0; 8], &[0u8; 238]);
    let f = ok.unwrap();
    assert_eq!(f[19], 255);
    assert_eq!(f.len(), 34 + 2 * 255);
}

#[test]
fn empty_advertise_emits_no_frames() {
    let ch = test_channel();
    let frames = ch.send(Payload::Advertise(String::new())).unwrap();
    assert_eq!(frames.len(), 0);
}

#[test]
fn oversized_payload_fails_before_any_frame() {
    let ch = test_channel();
    // 65,535 chunks of 238 bytes hold 15,597,330 bytes; one byte more
    // needs a 65,536th chunk, which no u16 offset could address
    let r = ch.send(Payload::Advertise("a".repeat(15_597_331)));
    assert!(matches!(r, Err(FloodFileError::FileTooLarge)));
}

#[test]
fn payload_at_chunk_limit_is_sent() {
    let ch = test_channel();
    // exactly 65,535 chunks: the last offset, 65,534, still fits a u16
    let frames = ch.send(Payload::Advertise("a".repeat(65_535 * 238))).unwrap();
    assert_eq!(frames.len(), 65_535);
    let last = parse_frame(&frames[65_534]).unwrap();
    assert_eq!(last.offset, 65_534);
    assert_eq!(last.total, 65_535);
}

#[test]
fn reassembly_in_order() {
    let sender = test_channel();
    let mut receiver = test_channel();
    let path: String = "d".repeat(600);
    let frames = sender.send(Payload::Advertise(path.clone())).unwrap();
    assert_eq!(frames.len(), 3);
    assert_eq!(receiver.recv(&frames[0]).unwrap(), None);
    assert_eq!(receiver.recv(&frames[1]).unwrap(), None);
    let got = receiver.recv(&frames[2]).unwrap().unwrap();
    assert_eq!(got, Payload::Advertise(path));
}

#[test]
fn reassembly_out_of_order() {
    let sender = test_channel();
    let path: String = "e".repeat(600);
    let frames = sender.send(Payload::Advertise(path.clone())).unwrap();
    assert_eq!(frames.len(), 3);

    // reversed
    let mut receiver = test_channel();
    assert_eq!(receiver.recv(&frames[2]).unwrap(), None);
    assert_eq!(receiver.recv(&frames[1]).unwrap(), None);
    let got = receiver.recv(&frames[0]).unwrap().unwrap();
    assert_eq!(got, Payload::Advertise(path.clone()));

    // another permutation
    let mut receiver = test_channel();
    assert_eq!(receiver.recv(&frames[1]).unwrap(), None);
    assert_eq!(receiver.recv(&frames[2]).unwrap(), None);
    let got = receiver.recv(&frames[0]).unwrap().unwrap();
    assert_eq!(got, Payload::Advertise(path));
}

#[test]
fn reassembly_ignores_duplicates() {
    let sender = test_channel();
    let mut receiver = test_channel();
    let path: String = "f".repeat(600);
    let frames = sender.send(Payload::Advertise(path.clone())).unwrap();
    assert_eq!(receiver.recv(&frames[0]).unwrap(), None);
    assert_eq!(receiver.recv(&frames[0]).unwrap(), None);
    assert_eq!(receiver.recv(&frames[2]).unwrap(), None);
    assert_eq!(receiver.recv(&frames[2]).unwrap(), None);
    let got = receiver.recv(&frames[1]).unwrap().unwrap();
    assert_eq!(got, Payload::Advertise(path));
}

#[test]
fn reassembly_of_interleaved_payloads() {
    // chunks of two payloads, under two keys, interleaved on one channel
    let sender = test_channel();
    let mut receiver = test_channel();
    let first: String = "g".repeat(600);
    let second: String = "h".repeat(500);
    let fa = sender.send(Payload::Advertise(first.clone())).unwrap();
    let fb = sender.send(Payload::Advertise(second.clone())).unwrap();
    assert_eq!(fa.len(), 3);
    assert_eq!(fb.len(), 3);
    assert_eq!(receiver.recv(&fa[0]).unwrap(), None);
    assert_eq!(receiver.recv(&fb[1]).unwrap(), None);
    assert_eq!(receiver.recv(&fa[2]).unwrap(), None);
    assert_eq!(receiver.recv(&fb[0]).unwrap(), None);
    let got_a = receiver.recv(&fa[1]).unwrap().unwrap();
    assert_eq!(got_a, Payload::Advertise(first));
    let got_b = receiver.recv(&fb[2]).unwrap().unwrap();
    assert_eq!(got_b, Payload::Advertise(second));
}

#[test]
fn recv_drops_invalid_frames() {
    let mut receiver = test_channel();
    assert_eq!(receiver.recv(&[0u8; 10]).unwrap(), None);
    assert_eq!(receiver.recv(&[0xffu8; 100]).unwrap(), None);
    // a real frame with a corrupted preamble
    let sender = test_channel();
    let frames = sender.send(Payload::Advertise(String::from("/tmp/a"))).unwrap();
    let mut bad = frames[0].clone();
    bad[28] = b'g';
    assert_eq!(receiver.recv(&bad).unwrap(), None);
}

#[test]
fn recv_drops_offset_outside_bucket() {
    let sender = test_channel();
    let mut receiver = test_channel();
    let f = sender.send_chunk(1, 5, 2, [3; 8], b"xy").unwrap();
    assert_eq!(receiver.recv(&f).unwrap(), None);
    let g = sender.send_chunk(1, 0, 0, [3; 8], b"xy").unwrap();
    assert_eq!(receiver.recv(&g).unwrap(), None);
}

#[test]
fn recv_reports_undecodable_payload() {
    let sender = test_channel();
    let mut receiver = test_channel();
    // opcode 9 exists for no payload kind, so the completed bucket
    // cannot decode
    let f = sender.send_chunk(9, 0, 1, [4; 8], b"zz").unwrap();
    let r = receiver.recv(&f);
    assert!(matches!(r, Err(FloodFileError::FailedToDeserializeArp)));
}

#[test]
fn large_file_chunking_and_reassembly() {
    let data = pseudo_random_bytes(1_048_576);
    let hash: [u8; 16] = [5; 16];
    let payload = Payload::File(hash, data.clone());
    let serialized_len = payload.serialize().len();

    let sender = test_channel();
    let frames = sender.send(Payload::File(hash, data.clone())).unwrap();
    assert_eq!(frames.len(), (serialized_len + 237) / 238);
    assert!(frames.len() > 4000);

    // every offset occurs exactly once, all frames share one key and
    // declare the same total
    let first = parse_frame(&frames[0]).unwrap();
    let mut seen = vec![false; frames.len()];
    for f in &frames {
        let rec = parse_frame(f).unwrap();
        assert_eq!(rec.key, first.key);
        assert_eq!(rec.total as usize, frames.len());
        assert!(!seen[rec.offset as usize]);
        seen[rec.offset as usize] = true;
    }
    assert!(seen.iter().all(|s| *s));

    let mut receiver = test_channel();
    let mut result = None;
    for f in &frames {
        if let Some(p) = receiver.recv(f).unwrap() {
            assert!(result.is_none());
            result = Some(p);
        }
    }
    match result.unwrap() {
        Payload::File(h, d) => {
            assert_eq!(h, hash);
            assert_eq!(d, data);
        },
        other => panic!("wrong payload: {:?}", other),
    }
}

#[test]
fn channel_path_accessors() {
    let mut ch = test_channel();
    assert_eq!(ch.get_path(), "/tmp");
    assert_eq!(ch.interface_name(), "eth0");
    ch.set_path(&String::from("/var/tmp")).unwrap();
    assert_eq!(ch.get_path(), "/var/tmp");
}
