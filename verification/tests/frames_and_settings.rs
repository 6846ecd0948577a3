use kv_store::bytes::{from_be_bytes, to_be_bytes};
use kv_store::client::{load_test_command, parse_args, redirect, ClientAction};
use kv_store::config::{parse_peers, resolve_node_id};
use kv_store::message::{Command, Response};
use kv_store::quorum::kth_largest;
use kv_store::text::decimal_text;
use kv_store::timing::random_election_timeout;
use kv_store::wire::{frame_message, payload_len};

fn strings(texts: &[&str]) -> Vec<String> {
    texts.iter().map(|t| t.to_string()).collect()
}

#[test]
fn integers_are_big_endian() {
    assert_eq!(to_be_bytes(0x0102_0304), [1, 2, 3, 4]);
    assert_eq!(from_be_bytes([1, 2, 3, 4]), 0x0102_0304);
    for x in [0u32, 1, 255, 256, 0xffff_ffff] {
        assert_eq!(to_be_bytes(x), x.to_be_bytes());
        assert_eq!(from_be_bytes(to_be_bytes(x)), x);
    }
}

#[test]
fn a_frame_carries_its_length() {
    let frame = frame_message(b"hello");
    assert_eq!(frame, b"\0\0\0\x05hello".to_vec());
    assert_eq!(payload_len([frame[0], frame[1], frame[2], frame[3]]), 5);
    assert_eq!(frame_message(b""), vec![0, 0, 0, 0]);
}

#[test]
fn numbers_read_as_people_write_them() {
    assert_eq!(decimal_text(0), "0");
    assert_eq!(decimal_text(7878), "7878");
    assert_eq!(decimal_text(u64::MAX), u64::MAX.to_string());
}

#[test]
fn peers_come_from_a_comma_separated_list() {
    assert_eq!(parse_peers("node2:7878,node3:7878"), strings(&["node2:7878", "node3:7878"]));
    assert_eq!(parse_peers(""), strings(&[]));
    assert_eq!(parse_peers(",a,,b,"), strings(&["a", "b"]));
    assert_eq!(parse_peers("é"), strings(&["é"]));
}

#[test]
fn the_node_id_has_a_port() {
    let id = |a: Option<&str>, b: Option<&str>, c: Option<&str>| {
        resolve_node_id(a.map(String::from), b.map(String::from), c.map(String::from))
    };
    assert_eq!(id(Some("node1"), Some("host"), Some("file")), "node1:7878");
    assert_eq!(id(Some("node1:99"), None, None), "node1:99");
    assert_eq!(id(Some(""), Some("host"), Some("file")), "host:7878");
    assert_eq!(id(None, Some(""), Some(" file\n")), "file:7878");
    assert_eq!(id(None, None, Some("\t\u{3000} \n")), "unknown-node:7878");
    assert_eq!(id(None, None, None), "unknown-node:7878");
}

#[test]
fn election_timeouts_lie_between_half_a_second_and_a_second() {
    for _ in 0..200 {
        let millis = random_election_timeout();
        assert!((500..1000).contains(&millis));
    }
}

#[test]
fn the_command_line_is_read() {
    assert!(matches!(parse_args(&[]), ClientAction::LoadTest));
    assert!(matches!(parse_args(&strings(&["addr"])), ClientAction::Usage));
    assert!(matches!(parse_args(&strings(&["addr", "set", "k"])), ClientAction::Usage));
    assert!(matches!(parse_args(&strings(&["addr", "del", "k"])), ClientAction::Usage));
    match parse_args(&strings(&["127.0.0.1:7878", "set", "greeting", "hello"])) {
        ClientAction::Send { addr, command } => {
            assert_eq!(addr, "127.0.0.1:7878");
            let value = b"hello".to_vec();
            assert_eq!(command, Command::Put { key: "greeting".to_string(), value });
        }
        _ => panic!("a set was asked for"),
    }
    match parse_args(&strings(&["n1", "get", "greeting"])) {
        ClientAction::Send { addr, command } => {
            assert_eq!(addr, "n1");
            assert_eq!(command, Command::Get { key: "greeting".to_string() });
        }
        _ => panic!("a get was asked for"),
    }
}

#[test]
fn the_client_follows_a_redirect_to_another_node() {
    let here = "n1:7878".to_string();
    let to = |leader: Option<&str>| {
        redirect(&here, &Response::NotLeader { leader: leader.map(String::from) })
    };
    assert_eq!(to(Some("n2:7878")), Some("n2:7878".to_string()));
    assert_eq!(to(Some("n1:7878")), None);
    assert_eq!(to(None), None);
    assert_eq!(redirect(&here, &Response::Done), None);
}

#[test]
fn the_load_test_writes_numbered_keys() {
    let expected = Command::Put { key: "key_42".to_string(), value: vec![42, 0, 0, 0] };
    assert_eq!(load_test_command(42), expected);
}

#[test]
fn the_kth_largest_counts_duplicates() {
    assert_eq!(kth_largest(&[5, 1, 5, 3], 1), 5);
    assert_eq!(kth_largest(&[5, 1, 5, 3], 2), 5);
    assert_eq!(kth_largest(&[5, 1, 5, 3], 3), 3);
    assert_eq!(kth_largest(&[5, 1, 5, 3], 4), 1);
    assert_eq!(kth_largest(&[0], 1), 0);
}

#[test]
fn white_space_is_what_unicode_says() {
    for c in '\0'..=char::MAX {
        let code = c as u32;
        let white = matches!(
            code,
            0x9..=0xd
                | 0x20
                | 0x85
                | 0xa0
                | 0x1680
                | 0x2000..=0x200a
                | 0x2028
                | 0x2029
                | 0x202f
                | 0x205f
                | 0x3000
        );
        let id = resolve_node_id(None, None, Some(c.to_string()));
        assert_eq!(id == "unknown-node:7878", white, "{:x}", code);
    }
}
