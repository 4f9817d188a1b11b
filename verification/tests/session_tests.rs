use floodfile::channel::Channel;
use floodfile::config::{Config, DisplayCommand};
use floodfile::errors::FloodFileError;
use floodfile::payload::Payload;
use floodfile::utils::{InterfaceInfo, compute_filehash, usable_interfaces};

fn iface(name: &str, last: u8) -> InterfaceInfo {
    InterfaceInfo {
        name: String::from(name),
        mac: Some([0x02, 0, 0, 0, 0, last]),
        ip_count: 1,
    }
}

fn peer(name: &str, last: u8) -> Config {
    Config::from(iface(name, last), String::from("/store"))
}

/// Feeds frames into a peer's channel and returns every payload that
/// completes.
fn deliver(cfg: &mut Config, frames: &[Vec<u8>]) -> Vec<Payload> {
    let mut out = Vec::new();
    for f in frames {
        if let Some(p) = cfg.channel.recv(f).unwrap() {
            out.push(p);
        }
    }
    out
}

#[test]
fn filehash_is_deterministic_md5_of_the_path() {
    let a = compute_filehash(&String::from("/tmp/a.txt")).unwrap();
    let b = compute_filehash(&String::from("/tmp/a.txt")).unwrap();
    assert_eq!(a, b);
    assert_eq!(a, md5::compute("/tmp/a.txt".as_bytes()).0);
    let c = compute_filehash(&String::from("/tmp/b.txt")).unwrap();
    assert_ne!(a, c);
}

#[test]
fn advertise_reaches_peer_as_new_file() {
    // S1: peer A advertises; peer B sees one NewFile and holds the hash
    let mut a = peer("eth0", 1);
    let mut b = peer("eth0", 2);
    let frames = a.advertise_file(String::from("/tmp/a.txt")).unwrap();
    let payloads = deliver(&mut b, &frames);
    assert_eq!(payloads.len(), 1);
    let path = match &payloads[0] {
        Payload::Advertise(p) => p.clone(),
        other => panic!("wrong payload: {:?}", other),
    };
    let event = b.handle_advertise(path).unwrap();
    assert!(matches!(event, DisplayCommand::NewFile(p) if p == "/tmp/a.txt"));
    assert_eq!(b.shared.len(), 1);
    assert_eq!(b.shared[0].hash, md5::compute("/tmp/a.txt".as_bytes()).0);
    assert_eq!(b.shared[0].path, "/tmp/a.txt");
}

#[test]
fn request_and_transfer_small_file() {
    // S2: after the advertisement, B requests and A serves the bytes
    let mut a = peer("eth0", 1);
    let mut b = peer("eth0", 2);
    let frames = a.advertise_file(String::from("/tmp/a.txt")).unwrap();
    for p in deliver(&mut b, &frames) {
        if let Payload::Advertise(path) = p {
            b.handle_advertise(path);
        }
    }

    let frames = b.request_file(String::from("/tmp/a.txt")).unwrap();
    let payloads = deliver(&mut a, &frames);
    assert_eq!(payloads.len(), 1);
    let hash = match payloads[0] {
        Payload::DownloadRequest(h) => h,
        ref other => panic!("wrong payload: {:?}", other),
    };
    let local = a.handle_download_request(hash).unwrap();
    assert_eq!(local, "/tmp/a.txt");

    // the caller reads the file; here its bytes are `hello`
    let frames = a.serve_file(hash, b"hello".to_vec()).unwrap();
    let payloads = deliver(&mut b, &frames);
    assert_eq!(payloads.len(), 1);
    let (h, data) = match &payloads[0] {
        Payload::File(h, d) => (*h, d.clone()),
        other => panic!("wrong payload: {:?}", other),
    };
    let task = b.handle_file(h, data).unwrap();
    assert_eq!(task.dir, "/store");
    assert_eq!(task.advertised_path, "/tmp/a.txt");
    assert_eq!(task.data, b"hello".to_vec());
    assert!(b.requested.is_empty());
}

#[test]
fn unsolicited_file_is_ignored() {
    // S3: a file nobody asked for must not produce a save task
    let a = peer("eth0", 1);
    let mut b = peer("eth0", 2);
    let hash = compute_filehash(&String::from("/tmp/x")).unwrap();
    let frames = a.serve_file(hash, b"x".to_vec()).unwrap();
    let payloads = deliver(&mut b, &frames);
    assert_eq!(payloads.len(), 1);
    let (h, data) = match &payloads[0] {
        Payload::File(h, d) => (*h, d.clone()),
        other => panic!("wrong payload: {:?}", other),
    };
    assert!(b.handle_file(h, data).is_none());
    assert!(b.requested.is_empty());
    assert!(b.shared.is_empty());
}

#[test]
fn duplicate_advertise_emits_one_event() {
    // S4: three identical advertisements, exactly one NewFile
    let mut b = peer("eth0", 2);
    let mut events = 0;
    for _ in 0..3 {
        if b.handle_advertise(String::from("/tmp/a.txt")).is_some() {
            events += 1;
        }
    }
    assert_eq!(events, 1);
    assert_eq!(b.shared.len(), 1);
}

#[test]
fn advertising_the_same_path_twice_keeps_one_offer() {
    let mut a = peer("eth0", 1);
    a.advertise_file(String::from("/tmp/a.txt")).unwrap();
    a.advertise_file(String::from("/tmp/a.txt")).unwrap();
    a.advertise_file(String::from("/tmp/b.txt")).unwrap();
    assert_eq!(a.sharing.len(), 2);
}

#[test]
fn own_share_is_not_advertised_back() {
    // a hash we offer ourselves is deduplicated too
    let mut a = peer("eth0", 1);
    a.advertise_file(String::from("/tmp/a.txt")).unwrap();
    assert!(a.handle_advertise(String::from("/tmp/a.txt")).is_none());
    assert!(a.shared.is_empty());
}

#[test]
fn interface_switch_clears_view() {
    // S6: replacing the state drops the shared map, so a requested file
    // that still arrives is not saved
    let mut a = peer("eth0", 1);
    let mut b = peer("eth0", 2);
    let frames = a.advertise_file(String::from("/tmp/a.txt")).unwrap();
    for p in deliver(&mut b, &frames) {
        if let Payload::Advertise(path) = p {
            b.handle_advertise(path);
        }
    }
    assert_eq!(b.shared.len(), 1);

    let mut b = Config::from(iface("other", 3), String::from("/store"));
    assert!(b.shared.is_empty() && b.sharing.is_empty() && b.requested.is_empty());

    let frames = b.request_file(String::from("/tmp/a.txt")).unwrap();
    let payloads = deliver(&mut a, &frames);
    let hash = match payloads[0] {
        Payload::DownloadRequest(h) => h,
        ref other => panic!("wrong payload: {:?}", other),
    };
    let local = a.handle_download_request(hash).unwrap();
    assert_eq!(local, "/tmp/a.txt");
    let frames = a.serve_file(hash, b"hello".to_vec()).unwrap();
    let payloads = deliver(&mut b, &frames);
    let (h, data) = match &payloads[0] {
        Payload::File(h, d) => (*h, d.clone()),
        other => panic!("wrong payload: {:?}", other),
    };
    // the hash was requested but is no longer in the shared map: no save
    assert!(b.handle_file(h, data).is_none());
    assert!(b.requested.is_empty());
}

#[test]
fn download_request_for_unshared_hash_is_ignored() {
    let a = peer("eth0", 1);
    let hash = compute_filehash(&String::from("/tmp/unknown")).unwrap();
    assert!(a.handle_download_request(hash).is_none());
}

#[test]
fn update_local_path_rejects_non_directory() {
    let mut a = peer("eth0", 1);
    let r = a.update_local_path(String::from("/no/such/dir"), false);
    assert!(matches!(r, Err(FloodFileError::InvalidDestinationPath)));
    assert_eq!(a.channel.get_path(), "/store");
    a.update_local_path(String::from("/tmp"), true).unwrap();
    assert_eq!(a.channel.get_path(), "/tmp");
}

#[test]
fn config_new_binds_head_interface() {
    let list = vec![iface("eth1", 9), iface("eth0", 1)];
    let cfg = Config::new(list, String::from("/store"));
    assert_eq!(cfg.channel.interface_name(), "eth1");
}

#[test]
fn usable_interfaces_filters_and_sorts() {
    let all = vec![
        InterfaceInfo { name: String::from("lo"), mac: None, ip_count: 1 },
        InterfaceInfo {
            name: String::from("eth0"),
            mac: Some([2, 0, 0, 0, 0, 1]),
            ip_count: 2,
        },
        InterfaceInfo {
            name: String::from("wlan0"),
            mac: Some([2, 0, 0, 0, 0, 2]),
            ip_count: 0,
        },
        InterfaceInfo {
            name: String::from("eth1"),
            mac: Some([2, 0, 0, 0, 0, 3]),
            ip_count: 5,
        },
    ];
    let usable = usable_interfaces(all);
    assert_eq!(usable.len(), 2);
    assert_eq!(usable[0].name, "eth1");
    assert_eq!(usable[1].name, "eth0");
}

#[test]
fn error_messages_match_their_kinds() {
    assert_eq!(
        FloodFileError::InvalidChannelType.message(),
        "invalid channel type provided."
    );
    assert_eq!(
        FloodFileError::ChannelError.message(),
        "an error has occurred acquiring channel."
    );
    assert_eq!(
        FloodFileError::FileTooLarge.message(),
        "the provided file is too large to reliably send."
    );
    assert_eq!(
        FloodFileError::PacketTooLarge.message(),
        "the provided packet is too large to send."
    );
    assert_eq!(
        FloodFileError::FailedToSendArp.message(),
        "unable to send ARP packet over the wire."
    );
    assert_eq!(
        FloodFileError::FailedToSerializeArp.message(),
        "unable to serialize ARP packet."
    );
    assert_eq!(
        FloodFileError::FailedToDeserializeArp.message(),
        "unable to deserialize ARP packet."
    );
    assert_eq!(
        FloodFileError::UnableToGenerateHash.message(),
        "unable to generate file-hash."
    );
    assert_eq!(
        FloodFileError::InvalidDestinationPath.message(),
        "invalid path to save files."
    );
}

#[test]
fn hash_comparison_is_by_bytes() {
    let a = compute_filehash(&String::from("/tmp/a.txt")).unwrap();
    let b = compute_filehash(&String::from("/tmp/a.txt")).unwrap();
    let c = compute_filehash(&String::from("/tmp/b.txt")).unwrap();
    assert!(floodfile::hash_eq(&a, &b));
    assert!(!floodfile::hash_eq(&a, &c));
    assert!(floodfile::bytes_eq(b"abc", b"abc"));
    assert!(!floodfile::bytes_eq(b"abc", b"abd"));
    assert!(!floodfile::bytes_eq(b"abc", b"ab"));
    assert!(floodfile::key_eq(&[1; 8], &[1; 8]));
    assert!(!floodfile::key_eq(&[1; 8], &[2; 8]));
}

#[test]
fn channels_use_distinct_random_keys() {
    // two payloads drawn in one process almost surely use different keys
    let ch = Channel::new(iface("eth0", 1), String::from("/tmp"));
    let f1 = ch.send(Payload::Advertise(String::from("/tmp/a"))).unwrap();
    let f2 = ch.send(Payload::Advertise(String::from("/tmp/a"))).unwrap();
    let k1 = floodfile::codec::parse_frame(&f1[0]).unwrap().key;
    let k2 = floodfile::codec::parse_frame(&f2[0]).unwrap().key;
    assert_ne!(k1, k2);
}
