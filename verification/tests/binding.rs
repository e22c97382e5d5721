use udp_listener::addr::IpAddress;
use udp_listener::addr::SocketAddress;
use udp_listener::forward::OutputMode;
use udp_listener::forward::OutputSink;
use udp_listener::forward::forward_datagram;
use udp_listener::render::render_address;
use udp_listener::resolver::resolve_endpoints;
use udp_listener::supervisor::FailureClass;
use udp_listener::supervisor::RunPlan;
use udp_listener::supervisor::SocketSet;
use udp_listener::supervisor::exit_code;
use udp_listener::supervisor::plan_run;

fn v4(a: u8, b: u8, c: u8, d: u8, port: u16) -> SocketAddress {
    SocketAddress { ip: IpAddress::V4 { a, b, c, d }, port }
}

fn v6_loopback(port: u16) -> SocketAddress {
    SocketAddress {
        ip: IpAddress::V6 { g0: 0, g1: 0, g2: 0, g3: 0, g4: 0, g5: 0, g6: 0, g7: 1 },
        port,
    }
}

#[test]
fn resolves_endpoints_in_order() {
    let inputs = vec![b"127.0.0.1:9001".to_vec(), b"[::1]:9002".to_vec()];
    let addrs = resolve_endpoints(&inputs).expect("both literals are valid");
    assert_eq!(addrs, vec![v4(127, 0, 0, 1, 9001), v6_loopback(9002)]);
}

#[test]
fn resolve_reports_first_offender_and_stops() {
    let inputs = vec![
        b"127.0.0.1:9001".to_vec(),
        b"not-an-address".to_vec(),
        b"also bad".to_vec(),
    ];
    let err = resolve_endpoints(&inputs).expect_err("second literal is malformed");
    assert_eq!(err.index, 1);
    assert_eq!(err.input, b"not-an-address".to_vec());
}

#[test]
fn resolve_accepts_empty_input() {
    let inputs: Vec<Vec<u8>> = vec![];
    let addrs = resolve_endpoints(&inputs).expect("an empty list resolves");
    assert!(addrs.is_empty());
}

#[test]
fn socket_set_binds_all_in_request_order() {
    // The two-address scenario: both sockets come up, and the reported
    // bindings correspond to the requests in order.
    let requested = vec![v4(127, 0, 0, 1, 9001), v6_loopback(9002)];
    let mut set = SocketSet::new(requested);
    let first = *set.next_request().expect("first address still unbound");
    assert_eq!(first, v4(127, 0, 0, 1, 9001));
    set.record_bound(first);
    let second = *set.next_request().expect("second address still unbound");
    assert_eq!(second, v6_loopback(9002));
    set.record_bound(second);
    assert!(set.next_request().is_none());
    assert!(set.fully_bound());
    assert_eq!(set.bindings(), &vec![v4(127, 0, 0, 1, 9001), v6_loopback(9002)]);
}

#[test]
fn socket_set_releases_everything_on_first_failure() {
    // One address in the set is unavailable: the whole set is abandoned,
    // every already-bound socket is released, and zero sockets stay open.
    let requested = vec![v4(127, 0, 0, 1, 9001), v4(127, 0, 0, 1, 9001)];
    let mut set = SocketSet::new(requested);
    let first = *set.next_request().expect("first address still unbound");
    set.record_bound(first);
    let release = set.record_failure();
    assert_eq!(release, 1, "the one bound socket must be released");
    assert!(set.bindings().is_empty(), "no socket may stay open");
    assert!(!set.fully_bound());
    assert_eq!(exit_code(FailureClass::SocketInit), 1);
}

#[test]
fn failed_bind_writes_nothing_to_the_stream() {
    // The already-in-use scenario: the process stops in the bind phase, so
    // the output stream never receives a byte.
    let sink = OutputSink::new();
    let mut set = SocketSet::new(vec![v4(127, 0, 0, 1, 9001)]);
    let release = set.record_failure();
    assert_eq!(release, 0);
    assert!(sink.bytes().is_empty(), "no data may precede a bind failure");
}

#[test]
fn ephemeral_request_reports_the_assigned_port() {
    // The ephemeral scenario: port 0 is requested, the system assigns a
    // concrete port, and the reported binding carries that port while the
    // five-byte payload reaches the stream unchanged.
    let requested = v4(127, 0, 0, 1, 0);
    let mut set = SocketSet::new(vec![requested]);
    let next = *set.next_request().expect("one address to bind");
    assert_eq!(next.port, 0);
    let assigned = v4(127, 0, 0, 1, 54321);
    set.record_bound(assigned);
    assert!(set.fully_bound());
    assert_eq!(set.bindings()[0].port, 54321);
    assert_eq!(render_address(&set.bindings()[0]), b"127.0.0.1:54321".to_vec());

    let mut sink = OutputSink::new();
    forward_datagram(OutputMode::Text, &b"hello".to_vec(), &mut sink);
    assert_eq!(sink.bytes(), &b"hello".to_vec());
}

#[test]
fn exit_codes_are_distinct_and_nonzero() {
    let classes = [
        FailureClass::SocketInit,
        FailureClass::LocalLookup,
        FailureClass::WorkerPanic,
        FailureClass::Receive,
        FailureClass::BinaryWrite,
        FailureClass::TextWrite,
    ];
    let codes: Vec<i32> = classes.iter().map(|c| exit_code(*c)).collect();
    assert_eq!(codes, vec![1, 2, 3, 4, 5, 6]);
    for (i, a) in codes.iter().enumerate() {
        assert_ne!(*a, 0);
        for b in codes.iter().skip(i + 1) {
            assert_ne!(a, b);
        }
    }
}

#[test]
fn one_socket_runs_inline_and_many_spawn() {
    assert_eq!(plan_run(1), RunPlan::Inline);
    assert_eq!(plan_run(0), RunPlan::Spawn { workers: 0 });
    assert_eq!(plan_run(2), RunPlan::Spawn { workers: 2 });
    assert_eq!(plan_run(5), RunPlan::Spawn { workers: 5 });
}
