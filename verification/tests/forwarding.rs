use udp_listener::forward::OutputMode;
use udp_listener::forward::OutputSink;
use udp_listener::forward::WorkerAction;
use udp_listener::forward::WorkerEvent;
use udp_listener::forward::encode_datagram;
use udp_listener::forward::forward_datagram;
use udp_listener::forward::worker_step;
use udp_listener::supervisor::FailureClass;
use udp_listener::supervisor::exit_code;
use udp_listener::text::utf8_lossy_decode;

#[test]
fn binary_mode_is_byte_for_byte() {
    let payload: Vec<u8> = vec![0x00, 0xFF, 0xFE, 0x80, 0xC0, 0x41, 0x00];
    assert_eq!(encode_datagram(OutputMode::Binary, &payload), payload);
    let empty: Vec<u8> = vec![];
    assert_eq!(encode_datagram(OutputMode::Binary, &empty), empty);
}

#[test]
fn text_mode_passes_valid_utf8_unchanged() {
    let payload = b"hello".to_vec();
    assert_eq!(encode_datagram(OutputMode::Text, &payload), payload);
    let emoji = "caf\u{e9} \u{1f600}".as_bytes().to_vec();
    assert_eq!(encode_datagram(OutputMode::Text, &emoji), emoji);
}

#[test]
fn text_mode_replaces_each_invalid_sequence_once() {
    // A lone invalid byte becomes exactly one replacement character.
    let payload = vec![0x66, 0xFF, 0x6F];
    assert_eq!(
        encode_datagram(OutputMode::Text, &payload),
        vec![0x66, 0xEF, 0xBF, 0xBD, 0x6F]
    );
    // A truncated three-byte sequence is one maximal subpart: one replacement.
    let truncated = vec![0xE2, 0x82];
    assert_eq!(encode_datagram(OutputMode::Text, &truncated), vec![0xEF, 0xBF, 0xBD]);
    // An overlong two-byte form is rejected byte by byte: two replacements.
    let overlong = vec![0xC0, 0xAF];
    assert_eq!(
        encode_datagram(OutputMode::Text, &overlong),
        vec![0xEF, 0xBF, 0xBD, 0xEF, 0xBF, 0xBD]
    );
    // A surrogate encoding yields three maximal subparts.
    let surrogate = vec![0xED, 0xA0, 0x80];
    assert_eq!(
        encode_datagram(OutputMode::Text, &surrogate),
        vec![0xEF, 0xBF, 0xBD, 0xEF, 0xBF, 0xBD, 0xEF, 0xBF, 0xBD]
    );
}

#[test]
fn text_mode_never_drops_a_datagram() {
    let payloads: [&[u8]; 4] = [b"\xFF", b"\xC2", b"\xF0\x9F", b"\x80\x80\x80"];
    for p in payloads {
        assert!(!encode_datagram(OutputMode::Text, &p.to_vec()).is_empty());
    }
}

#[test]
fn lossy_decode_matches_platform_lossy_decode() {
    let samples: [&[u8]; 10] = [
        b"",
        b"plain ascii",
        b"\xFF\xFE",
        b"\xE2\x82\xAC euro",
        b"\xE2\x82",
        b"\xF0\x9F\x98\x80",
        b"\xF0\x28\x8C\xBC",
        b"\xED\xA0\x80\xED\xBF\xBF",
        b"\xC0\xAF",
        b"a\xC2b\xE0\xA0c\xF4\x90\x80\x80d",
    ];
    for p in samples {
        let ours = utf8_lossy_decode(&p.to_vec());
        let theirs = String::from_utf8_lossy(p);
        assert_eq!(ours, theirs.as_bytes().to_vec(), "difference on {:?}", p);
    }
}

#[test]
fn sink_appends_each_write_whole() {
    let mut sink = OutputSink::new();
    assert!(sink.bytes().is_empty());
    let d1 = b"first datagram".to_vec();
    let d2 = vec![0x00, 0xFF, 0x10];
    sink.write(&d1);
    sink.write(&d2);
    let mut expected = d1.clone();
    expected.extend_from_slice(&d2);
    assert_eq!(sink.bytes(), &expected);

    // The opposite arrival order: both payloads still appear, each whole.
    let mut other = OutputSink::new();
    other.write(&d2);
    other.write(&d1);
    let mut expected_other = d2.clone();
    expected_other.extend_from_slice(&d1);
    assert_eq!(other.bytes(), &expected_other);
}

#[test]
fn forward_writes_exactly_one_encoding() {
    let mut sink = OutputSink::new();
    forward_datagram(OutputMode::Text, &b"hello".to_vec(), &mut sink);
    assert_eq!(sink.bytes(), &b"hello".to_vec());
    forward_datagram(OutputMode::Text, &vec![0xFF], &mut sink);
    assert_eq!(sink.bytes(), &b"hello\xEF\xBF\xBD".to_vec());
    forward_datagram(OutputMode::Binary, &vec![0xFF], &mut sink);
    assert_eq!(sink.bytes(), &b"hello\xEF\xBF\xBD\xFF".to_vec());
}

#[test]
fn worker_forwards_received_datagrams() {
    match worker_step(OutputMode::Text, WorkerEvent::Received(vec![0x68, 0xFF])) {
        WorkerAction::Forward(out) => assert_eq!(out, vec![0x68, 0xEF, 0xBF, 0xBD]),
        WorkerAction::Stop(_) => panic!("a datagram must be forwarded, not dropped"),
    }
    match worker_step(OutputMode::Binary, WorkerEvent::Received(vec![0x68, 0xFF])) {
        WorkerAction::Forward(out) => assert_eq!(out, vec![0x68, 0xFF]),
        WorkerAction::Stop(_) => panic!("a datagram must be forwarded, not dropped"),
    }
}

#[test]
fn worker_stops_on_io_failure_with_the_right_class() {
    match worker_step(OutputMode::Text, WorkerEvent::ReceiveFailed) {
        WorkerAction::Stop(c) => {
            assert_eq!(c, FailureClass::Receive);
            assert_eq!(exit_code(c), 4);
        }
        WorkerAction::Forward(_) => panic!("a receive failure must stop the worker"),
    }
    match worker_step(OutputMode::Binary, WorkerEvent::WriteFailed) {
        WorkerAction::Stop(c) => {
            assert_eq!(c, FailureClass::BinaryWrite);
            assert_eq!(exit_code(c), 5);
        }
        WorkerAction::Forward(_) => panic!("a write failure must stop the worker"),
    }
    match worker_step(OutputMode::Text, WorkerEvent::WriteFailed) {
        WorkerAction::Stop(c) => {
            assert_eq!(c, FailureClass::TextWrite);
            assert_eq!(exit_code(c), 6);
        }
        WorkerAction::Forward(_) => panic!("a write failure must stop the worker"),
    }
}
