//! Lookups from the first request to the result.

use dns_socket::error::{GetQueryResultError, StartQueryError};
use dns_socket::ip::{IpAddress, IpProtocol, IpRepr, Ipv4Address, Ipv6Address, UdpRepr};
use dns_socket::query::{DnsQuery, MulticastDns, QueryIds};
use dns_socket::result::{QueryResult, SrvQueryResult};
use dns_socket::slots::QuerySlots;
use dns_socket::socket::{PollAt, QueryHandle, Socket};
use dns_socket::time::Instant;
use dns_socket::wire::Type;
use std::sync::atomic::{AtomicUsize, Ordering};
use std::sync::Arc;
use std::task::{Wake, Waker};

const DNS_PORT: u16 = 53;

const ADDRESS_QUERY_NAME: &str = "example.com";
const ADDRESS_QUERY_TYPE: Type = Type::A;

fn local_addr() -> IpAddress {
    Ipv4Address::new(192, 168, 1, 1).into()
}

fn server_addr() -> IpAddress {
    Ipv4Address::new(192, 168, 1, 53).into()
}

fn address_answer() -> Vec<u8> {
    vec![
        0xc0, 0x0c, 0x00, 0x01, 0x00, 0x01, 0x00, 0x00, 0x00, 0x3c, 0x00, 0x04, 1, 2, 3, 4,
    ]
}

fn expected_address_result() -> QueryResult {
    QueryResult::Address(Ipv4Address::new(1, 2, 3, 4).into())
}

fn ids() -> QueryIds {
    QueryIds { txid: 0x1234, port: 49152 }
}

fn new_socket() -> Socket<'static> {
    Socket::new(&[server_addr()], QuerySlots::owned(vec![None]))
}

type Emitted = (IpRepr, UdpRepr, Vec<u8>);

fn dispatch_at(socket: &mut Socket<'_>, micros: i64) -> Option<Emitted> {
    let mut emitted = None;
    assert_eq!(
        socket.dispatch(
            Instant::from_micros(micros),
            |_| Some(local_addr()),
            |(ip_repr, udp_repr, payload)| {
                emitted = Some((ip_repr, udp_repr, payload.to_vec()));
                Ok::<_, ()>(())
            }
        ),
        Ok(())
    );
    emitted
}

fn dispatch_query(socket: &mut Socket<'_>) -> (u16, Vec<u8>) {
    let (_, udp_repr, payload) =
        dispatch_at(socket, 0).expect("DNS query should have been emitted");
    (udp_repr.src_port, payload)
}

/// A response with the question of the query and so many answers.
fn build_message(query_payload: &[u8], flags: u16, count: u8, answers: &[u8]) -> Vec<u8> {
    let mut response = query_payload[..2].to_vec();
    response.extend_from_slice(&flags.to_be_bytes());
    response.extend_from_slice(&[0, 1, 0, count, 0, 0, 0, 0]);
    response.extend_from_slice(&query_payload[12..]);
    response.extend_from_slice(answers);
    response
}

fn build_response(query_payload: &[u8], answer: &[u8]) -> Vec<u8> {
    build_message(query_payload, 0x8180, 1, answer)
}

fn process_response(socket: &mut Socket<'_>, dst_port: u16, payload: &[u8]) {
    let udp_repr = UdpRepr {
        src_port: DNS_PORT,
        dst_port,
    };
    let ip_repr = IpRepr::new(
        server_addr(),
        local_addr(),
        IpProtocol::Udp,
        udp_repr.header_len() + payload.len(),
        64,
    );
    socket.process(&ip_repr, &udp_repr, payload);
}

fn only(result: QueryResult) -> heapless::Vec<QueryResult, 1> {
    heapless::Vec::from_slice(&[result]).unwrap()
}

fn start(socket: &mut Socket<'_>) -> QueryHandle {
    socket
        .start_query(ids(), ADDRESS_QUERY_NAME, ADDRESS_QUERY_TYPE)
        .unwrap()
}

#[test]
fn test_get_query_result_address() {
    let mut socket = new_socket();

    let handle = socket
        .start_query(ids(), ADDRESS_QUERY_NAME, ADDRESS_QUERY_TYPE)
        .unwrap();
    let (query_port, query_payload) = dispatch_query(&mut socket);

    let response = build_response(&query_payload, &address_answer());
    process_response(&mut socket, query_port, &response);

    let expected = heapless::Vec::from_slice(&[expected_address_result()]).unwrap();
    assert_eq!(socket.get_query_result(handle), Ok(expected));
}

#[test]
fn test_get_query_result_srv() {
    let mut socket = new_socket();

    let handle = socket
        .start_query(ids(), "_sip._tcp.example.com", Type::Srv)
        .unwrap();
    let (query_port, query_payload) = dispatch_query(&mut socket);

    let response = build_response(
        &query_payload,
        &[
            0xc0, 0x0c, 0x00, 0x21, 0x00, 0x01, 0x00, 0x00, 0x00, 0x3c, 0x00, 0x12, 0x00, 0x00,
            0x00, 0x05, 0x13, 0xc4, 0x09, 0x73, 0x69, 0x70, 0x73, 0x65, 0x72, 0x76, 0x65, 0x72,
            0xc0, 0x16,
        ],
    );
    process_response(&mut socket, query_port, &response);

    let mut expected_target = heapless::String::new();
    expected_target.push_str("sipserver.example.com").unwrap();
    let expected = heapless::Vec::from_slice(&[QueryResult::Srv(SrvQueryResult {
        priority: 0,
        weight: 5,
        port: 5060,
        target: expected_target,
    })])
    .unwrap();
    assert_eq!(socket.get_query_result(handle), Ok(expected));
}

/// An SRV answer whose target has five labels of 63 bytes.
fn long_srv_answer() -> Vec<u8> {
    let mut answer = vec![
        0xc0, 0x0c, 0x00, 0x21, 0x00, 0x01, 0x00, 0x00, 0x00, 0x3c, 0x00, 0x00, 0x00, 0x00, 0x00,
        0x05, 0x13, 0xc4,
    ];
    for _ in 0..5 {
        answer.push(0x3f);
        answer.extend_from_slice(&[b'a'; 63]);
    }
    answer.push(0x00);

    let rdlen = (answer.len() - 12) as u16;
    answer[10] = (rdlen >> 8) as u8;
    answer[11] = rdlen as u8;
    answer
}

#[test]
fn test_get_query_result_srv_too_long() {
    let mut socket = new_socket();

    let handle = socket
        .start_query(ids(), "_sip._tcp.example.com", Type::Srv)
        .unwrap();
    let (query_port, query_payload) = dispatch_query(&mut socket);

    let response = build_response(&query_payload, &long_srv_answer());
    process_response(&mut socket, query_port, &response);

    assert_eq!(
        socket.get_query_result(handle),
        Err(GetQueryResultError::SrvTargetTooLong)
    );
}

/// An SRV answer with the given target.
fn srv_answer(target: &[u8]) -> Vec<u8> {
    let mut answer = vec![0xc0, 0x0c, 0x00, 0x21, 0x00, 0x01, 0x00, 0x00, 0x00, 0x3c];
    answer.extend_from_slice(&(6 + target.len() as u16).to_be_bytes());
    answer.extend_from_slice(&[0, 1, 0, 2, 0, 3]);
    answer.extend_from_slice(target);
    answer
}

fn srv_outcome(
    target: &[u8],
) -> Result<heapless::Vec<QueryResult, 1>, GetQueryResultError> {
    let mut socket = new_socket();
    let handle = socket.start_query(ids(), "x.y", Type::Srv).unwrap();
    let (query_port, query_payload) = dispatch_query(&mut socket);
    let response = build_response(&query_payload, &srv_answer(target));
    process_response(&mut socket, query_port, &response);
    socket.get_query_result(handle)
}

#[test]
fn srv_target_of_the_root_is_empty() {
    let expected = QueryResult::Srv(SrvQueryResult {
        priority: 1,
        weight: 2,
        port: 3,
        target: heapless::String::new(),
    });
    assert_eq!(srv_outcome(&[0]), Ok(only(expected)));
}

#[test]
fn srv_target_that_is_no_text_fails() {
    assert_eq!(srv_outcome(&[2, 0xff, 0xfe, 0]), Err(GetQueryResultError::Failed));
}

#[test]
fn srv_target_that_breaks_off_fails() {
    assert_eq!(srv_outcome(&[3, b'a']), Err(GetQueryResultError::Failed));
    assert_eq!(srv_outcome(&[]), Err(GetQueryResultError::Failed));
}

#[test]
fn srv_target_of_the_longest_text_is_kept() {
    // Three labels of 63 bytes and one of 61: 253 bytes with the dots
    let mut target = Vec::new();
    for _ in 0..3 {
        target.push(63);
        target.extend_from_slice(&[b'a'; 63]);
    }
    let fitting = [&target[..], &[61], &[b'b'; 61], &[0]].concat();
    match srv_outcome(&fitting) {
        Ok(list) => match &list[0] {
            QueryResult::Srv(srv) => assert_eq!(srv.target.len(), 253),
            _ => panic!("an SRV result was expected"),
        },
        Err(_) => panic!("the target fits"),
    }
    // No room for one more dot, nor for a longer label
    let over = [&target[..], &[61], &[b'b'; 61], &[1, b'c', 0]].concat();
    assert_eq!(srv_outcome(&over), Err(GetQueryResultError::SrvTargetTooLong));
    let over = [&target[..], &[62], &[b'b'; 62], &[0]].concat();
    assert_eq!(srv_outcome(&over), Err(GetQueryResultError::SrvTargetTooLong));
}

#[test]
fn request_bytes() {
    let mut socket = new_socket();
    start(&mut socket);
    let (ip_repr, udp_repr, payload) = dispatch_at(&mut socket, 0).unwrap();
    let expected = [
        &[0x12, 0x34, 0x01, 0x00, 0, 1, 0, 0, 0, 0, 0, 0][..],
        b"\x07example\x03com\x00",
        &[0, 1, 0, 1],
    ]
    .concat();
    assert_eq!(payload, expected);
    assert_eq!(udp_repr, UdpRepr { src_port: 49152, dst_port: 53 });
    assert_eq!(
        ip_repr,
        IpRepr::new(local_addr(), server_addr(), IpProtocol::Udp, 8 + expected.len(), 64)
    );
}

#[test]
fn hop_limit_is_used() {
    let mut socket = new_socket();
    assert_eq!(socket.hop_limit(), None);
    socket.set_hop_limit(Some(3));
    assert_eq!(socket.hop_limit(), Some(3));
    start(&mut socket);
    assert_eq!(dispatch_at(&mut socket, 0).unwrap().0.hop_limit, 3);
}

#[test]
fn answer_with_an_ipv6_address() {
    let mut socket = new_socket();
    let handle = socket.start_query(ids(), ADDRESS_QUERY_NAME, Type::Aaaa).unwrap();
    let (query_port, query_payload) = dispatch_query(&mut socket);
    let response = build_response(
        &query_payload,
        &[
            0xc0, 0x0c, 0x00, 0x1c, 0x00, 0x01, 0x00, 0x00, 0x00, 0x3c, 0x00, 0x10, 0x20, 0x01,
            0x0d, 0xb8, 0, 0, 0, 0, 0, 0, 0, 0, 0, 0, 0, 1,
        ],
    );
    process_response(&mut socket, query_port, &response);
    let address = Ipv6Address::new(0x2001, 0x0db8, 0, 0, 0, 0, 0, 1);
    assert_eq!(
        socket.get_query_result(handle),
        Ok(only(QueryResult::Address(address.into())))
    );
}

#[test]
fn only_the_first_result_is_kept() {
    let mut socket = new_socket();
    let handle = start(&mut socket);
    let (query_port, query_payload) = dispatch_query(&mut socket);
    let mut second = address_answer();
    second[15] = 99;
    let answers = [address_answer(), second].concat();
    let response = build_message(&query_payload, 0x8180, 2, &answers);
    process_response(&mut socket, query_port, &response);
    assert_eq!(socket.get_query_result(handle), Ok(only(expected_address_result())));
}

/// An alias record for the question, to the name `t.example.com`.
fn alias_answer() -> Vec<u8> {
    vec![
        0xc0, 0x0c, 0x00, 0x05, 0x00, 0x01, 0x00, 0x00, 0x00, 0x3c, 0x00, 0x04, 1, b't', 0xc0,
        0x0c,
    ]
}

#[test]
fn alias_is_followed() {
    let mut socket = new_socket();
    let handle = start(&mut socket);
    let (query_port, query_payload) = dispatch_query(&mut socket);
    let mut address = b"\x01t\x07example\x03com\x00".to_vec();
    address.extend_from_slice(&address_answer()[2..]);
    let answers = [alias_answer(), address].concat();
    let response = build_message(&query_payload, 0x8180, 2, &answers);
    process_response(&mut socket, query_port, &response);
    assert_eq!(socket.get_query_result(handle), Ok(only(expected_address_result())));
}

#[test]
fn record_of_another_name_is_skipped() {
    let mut socket = new_socket();
    let handle = start(&mut socket);
    let (query_port, query_payload) = dispatch_query(&mut socket);
    // After the alias, the record of the first name counts no more
    let answers = [alias_answer(), address_answer()].concat();
    let response = build_message(&query_payload, 0x8180, 2, &answers);
    process_response(&mut socket, query_port, &response);
    assert_eq!(socket.get_query_result(handle), Err(GetQueryResultError::Failed));
}

#[test]
fn alias_that_breaks_off_spoils_the_name() {
    let mut socket = new_socket();
    let handle = start(&mut socket);
    let (query_port, query_payload) = dispatch_query(&mut socket);
    let broken = [
        0xc0, 0x0c, 0x00, 0x05, 0x00, 0x01, 0, 0, 0, 60, 0x00, 0x03, 1, b't', 9,
    ];
    let response = build_response(&query_payload, &broken);
    process_response(&mut socket, query_port, &response);
    assert_eq!(socket.get_query_result(handle), Err(GetQueryResultError::Pending));
    // The query now stands at what was read of the alias
    let (_, _, payload) = dispatch_at(&mut socket, 2_000_000).unwrap();
    assert_eq!(payload[12..], [1, b't', 0, 1, 0, 1]);
}

#[test]
fn no_such_name_fails_every_waiting_query() {
    let mut socket = Socket::new(&[server_addr()], QuerySlots::owned(vec![]));
    let first = start(&mut socket);
    let other = socket
        .start_query(QueryIds { txid: 1, port: 49152 }, "other.org", Type::A)
        .unwrap();
    let second = socket.start_query(ids(), "second.org", Type::A).unwrap();
    let (query_port, query_payload) = dispatch_query(&mut socket);
    process_response(&mut socket, query_port, &build_message(&query_payload, 0x8183, 0, &[]));
    assert_eq!(socket.get_query_result(first), Err(GetQueryResultError::Failed));
    assert_eq!(socket.get_query_result(other), Err(GetQueryResultError::Pending));
    assert_eq!(socket.get_query_result(second), Err(GetQueryResultError::Failed));
}

#[test]
fn response_without_an_answer_fails() {
    let mut socket = new_socket();
    let handle = start(&mut socket);
    let (query_port, query_payload) = dispatch_query(&mut socket);
    process_response(&mut socket, query_port, &build_message(&query_payload, 0x8180, 0, &[]));
    assert_eq!(socket.get_query_result(handle), Err(GetQueryResultError::Failed));
}

#[test]
fn messages_that_do_not_match_are_ignored() {
    let mut socket = new_socket();
    let handle = start(&mut socket);
    let (query_port, query_payload) = dispatch_query(&mut socket);
    let good = build_response(&query_payload, &address_answer());
    // Too short for a header
    process_response(&mut socket, query_port, &good[..11]);
    // No response
    process_response(&mut socket, query_port, &build_message(&query_payload, 0x0180, 1, &address_answer()));
    // Another opcode
    process_response(&mut socket, query_port, &build_message(&query_payload, 0x9180, 1, &address_answer()));
    // Another port
    process_response(&mut socket, query_port + 1, &good);
    // Another ID
    let mut wrong = good.clone();
    wrong[1] ^= 1;
    process_response(&mut socket, query_port, &wrong);
    // Two questions
    let mut wrong = good.clone();
    wrong[5] = 2;
    process_response(&mut socket, query_port, &wrong);
    // Another name
    let mut wrong = good.clone();
    wrong[13] = b'E';
    process_response(&mut socket, query_port, &wrong);
    // Another type
    let mut wrong = good.clone();
    wrong[26] = 28;
    process_response(&mut socket, query_port, &wrong);
    // Another class
    let mut wrong = good.clone();
    wrong[28] = 3;
    process_response(&mut socket, query_port, &wrong);
    // A record that breaks off
    process_response(&mut socket, query_port, &good[..good.len() - 1]);
    // A record of an address of three bytes
    let mut wrong = good[..good.len() - 1].to_vec();
    wrong[29 + 11] = 3;
    process_response(&mut socket, query_port, &wrong);
    assert_eq!(socket.get_query_result(handle), Err(GetQueryResultError::Pending));
    // The one that matches
    process_response(&mut socket, query_port, &good);
    assert_eq!(socket.get_query_result(handle), Ok(only(expected_address_result())));
}

#[test]
fn ended_query_stays_until_fetched() {
    let mut socket = new_socket();
    let handle = start(&mut socket);
    let (query_port, query_payload) = dispatch_query(&mut socket);
    process_response(&mut socket, query_port, &build_response(&query_payload, &address_answer()));
    process_response(&mut socket, query_port, &build_message(&query_payload, 0x8183, 0, &[]));
    assert!(dispatch_at(&mut socket, 60_000_000).is_none());
    assert_eq!(socket.poll_at(), PollAt::Ingress);
    assert_eq!(socket.get_query_result(handle), Ok(only(expected_address_result())));
}

#[test]
fn slots_are_recycled_and_added() {
    let mut socket = new_socket();
    let first = start(&mut socket);
    // The socket owns its slots, so it can add one
    let second = start(&mut socket);
    socket.cancel_query(first);
    // The slot of the first is taken again: canceling it leaves the second
    let third = start(&mut socket);
    assert_eq!(socket.get_query_result(second), Err(GetQueryResultError::Pending));
    socket.cancel_query(third);
    assert_eq!(socket.get_query_result(second), Err(GetQueryResultError::Pending));
}

#[test]
fn borrowed_slots_run_out() {
    let mut slots: [Option<DnsQuery>; 1] = [None];
    let mut socket = Socket::new(&[server_addr()], QuerySlots::borrowed(&mut slots));
    let handle = start(&mut socket);
    assert!(matches!(
        socket.start_query(ids(), "a.b", Type::A),
        Err(StartQueryError::NoFreeSlot)
    ));
    socket.cancel_query(handle);
    assert!(socket.start_query(ids(), "a.b", Type::A).is_ok());
}

#[test]
fn servers_are_truncated_and_replaced() {
    let other: IpAddress = Ipv4Address::new(10, 0, 0, 1).into();
    let mut socket = Socket::new(&[server_addr(), other], QuerySlots::owned(vec![]));
    let udp_repr = UdpRepr { src_port: DNS_PORT, dst_port: 1 };
    let from = |addr: IpAddress| IpRepr::new(addr, local_addr(), IpProtocol::Udp, 8, 64);
    assert!(socket.accepts(&from(server_addr()), &udp_repr));
    assert!(!socket.accepts(&from(other), &udp_repr));
    socket.update_servers(&[other, server_addr()]);
    assert!(!socket.accepts(&from(server_addr()), &udp_repr));
    assert!(socket.accepts(&from(other), &udp_repr));
    socket.update_servers(&[]);
    assert!(!socket.accepts(&from(other), &udp_repr));
    // Multicast DNS is accepted from anywhere, any other port from nowhere
    assert!(socket.accepts(&from(other), &UdpRepr { src_port: 5353, dst_port: 1 }));
    assert!(!socket.accepts(&from(other), &UdpRepr { src_port: 54, dst_port: 1 }));
}

#[test]
fn requests_are_repeated_after_growing_delays() {
    let mut socket = new_socket();
    start(&mut socket);
    assert_eq!(socket.poll_at(), PollAt::Time(Instant::from_micros(0)));
    for (at, next) in [(0, 1_000_000), (1_000_000, 3_000_000), (3_000_000, 7_000_000)] {
        assert!(dispatch_at(&mut socket, at).is_some());
        assert_eq!(socket.poll_at(), PollAt::Time(Instant::from_micros(next)));
        assert!(dispatch_at(&mut socket, next - 1).is_none());
    }
    // After eight seconds more the delay is ten seconds rather than sixteen,
    // but the server has no more time
    assert!(dispatch_at(&mut socket, 7_000_000).is_some());
    assert_eq!(socket.poll_at(), PollAt::Time(Instant::from_micros(15_000_000)));
}

#[test]
fn query_fails_when_its_servers_have_no_time_left() {
    let mut socket = new_socket();
    let handle = start(&mut socket);
    assert!(dispatch_at(&mut socket, 0).is_some());
    assert!(dispatch_at(&mut socket, 10_000_000).is_some());
    assert_eq!(socket.get_query_result(handle), Err(GetQueryResultError::Pending));
    assert!(dispatch_at(&mut socket, 10_000_001).is_none());
    assert_eq!(socket.get_query_result(handle), Err(GetQueryResultError::Failed));
}

#[test]
fn query_without_a_server_fails() {
    let mut socket = Socket::new(&[], QuerySlots::owned(vec![]));
    let handle = start(&mut socket);
    assert!(dispatch_at(&mut socket, 0).is_none());
    assert_eq!(socket.get_query_result(handle), Err(GetQueryResultError::Failed));
}

#[test]
fn query_to_an_unspecified_server_fails() {
    let unspecified: IpAddress = Ipv4Address::new(0, 0, 0, 0).into();
    let mut socket = Socket::new(&[unspecified], QuerySlots::owned(vec![]));
    let handle = start(&mut socket);
    assert!(dispatch_at(&mut socket, 0).is_none());
    assert_eq!(socket.get_query_result(handle), Err(GetQueryResultError::Failed));
}

#[test]
fn query_without_a_source_address_fails_and_the_next_is_sent() {
    let mut socket = new_socket();
    let local = socket.start_query(ids(), "printer.local", Type::A).unwrap();
    start(&mut socket);
    let mut emitted = None;
    let r = socket.dispatch(
        Instant::from_micros(0),
        |server| match server {
            IpAddress::Ipv4(_) => Some(local_addr()),
            IpAddress::Ipv6(_) => None,
        },
        |(ip_repr, _, _)| {
            emitted = Some(ip_repr.dst_addr);
            Ok::<_, ()>(())
        },
    );
    assert_eq!(r, Ok(()));
    assert_eq!(emitted, Some(server_addr()));
    assert_eq!(socket.get_query_result(local), Err(GetQueryResultError::Failed));
}

#[test]
fn request_that_could_not_be_sent_stays_due() {
    let mut socket = new_socket();
    start(&mut socket);
    let r = socket.dispatch(
        Instant::from_micros(5),
        |_| Some(local_addr()),
        |_| Err::<(), &str>("busy"),
    );
    assert_eq!(r, Err("busy"));
    assert!(dispatch_at(&mut socket, 5).is_some());
}

#[test]
fn local_names_are_asked_by_multicast() {
    let mut socket = new_socket();
    let handle = socket.start_query(ids(), "printer.local.", Type::A).unwrap();
    let (ip_repr, udp_repr, _) = dispatch_at(&mut socket, 0).unwrap();
    let group: IpAddress = Ipv6Address::new(0xff02, 0, 0, 0, 0, 0, 0, 0xfb).into();
    assert_eq!(ip_repr.dst_addr, group);
    assert_eq!(udp_repr.dst_port, 5353);
    let (ip_repr, udp_repr, _) = dispatch_at(&mut socket, 10_000_001).unwrap();
    let group: IpAddress = Ipv4Address::new(224, 0, 0, 251).into();
    assert_eq!(ip_repr.dst_addr, group);
    assert_eq!(udp_repr.dst_port, 5353);
    assert!(dispatch_at(&mut socket, 20_000_002).is_none());
    assert_eq!(socket.get_query_result(handle), Err(GetQueryResultError::Failed));
}

#[test]
fn raw_names_can_be_asked_by_multicast() {
    let mut socket = new_socket();
    socket
        .start_query_raw(ids(), b"\x01a\x00", Type::A, MulticastDns::Enabled)
        .unwrap();
    assert_eq!(dispatch_at(&mut socket, 0).unwrap().1.dst_port, 5353);
}

struct Counter(AtomicUsize);

impl Wake for Counter {
    fn wake(self: Arc<Self>) {
        self.0.fetch_add(1, Ordering::SeqCst);
    }
}

#[test]
fn waker_is_woken_when_the_query_ends() {
    let mut socket = new_socket();
    let handle = start(&mut socket);
    let counter = Arc::new(Counter(AtomicUsize::new(0)));
    let waker = Waker::from(counter.clone());
    socket.register_query_waker(handle, &waker);
    let (query_port, query_payload) = dispatch_query(&mut socket);
    assert_eq!(counter.0.load(Ordering::SeqCst), 0);
    let response = build_response(&query_payload, &address_answer());
    process_response(&mut socket, query_port, &response);
    assert_eq!(counter.0.load(Ordering::SeqCst), 1);
    assert_eq!(socket.get_query_result(handle), Ok(only(expected_address_result())));
    assert_eq!(counter.0.load(Ordering::SeqCst), 1);
}

#[test]
fn waker_is_woken_when_the_query_times_out() {
    let mut socket = new_socket();
    let handle = start(&mut socket);
    let counter = Arc::new(Counter(AtomicUsize::new(0)));
    socket.register_query_waker(handle, &Waker::from(counter.clone()));
    dispatch_at(&mut socket, 0);
    dispatch_at(&mut socket, 10_000_001);
    assert_eq!(counter.0.load(Ordering::SeqCst), 1);
}

#[test]
fn result_errors_in_words() {
    assert_eq!(GetQueryResultError::Pending.message(), "Query is not done yet");
    assert_eq!(GetQueryResultError::Failed.message(), "Query failed");
    assert_eq!(GetQueryResultError::SrvTargetTooLong.message(), "SRV target too long");
}

#[test]
fn records_of_other_names_and_kinds_are_skipped() {
    let mut socket = new_socket();
    let handle = start(&mut socket);
    let (query_port, query_payload) = dispatch_query(&mut socket);
    // An address of another name, then a text record of the name
    let mut other = b"\x05other\x03org\x00".to_vec();
    other.extend_from_slice(&[0, 1, 0, 1, 0, 0, 0, 60, 0, 4, 9, 9, 9, 9]);
    let text = vec![0xc0, 0x0c, 0, 16, 0, 1, 0, 0, 0, 60, 0, 3, 2, b'h', b'i'];
    let answers = [other.clone(), text, address_answer(), other].concat();
    let response = build_message(&query_payload, 0x8180, 4, &answers);
    process_response(&mut socket, query_port, &response);
    assert_eq!(socket.get_query_result(handle), Ok(only(expected_address_result())));
}

#[test]
fn receiving_hands_out_the_wakers_of_ended_queries() {
    let mut socket = Socket::new(&[server_addr()], QuerySlots::owned(vec![]));
    let first = start(&mut socket);
    let other = socket
        .start_query(QueryIds { txid: 1, port: 49152 }, "other.org", Type::A)
        .unwrap();
    let second = start(&mut socket);
    let counters: Vec<Arc<Counter>> =
        (0..3).map(|_| Arc::new(Counter(AtomicUsize::new(0)))).collect();
    for (handle, counter) in [first, other, second].iter().zip(&counters) {
        socket.register_query_waker(*handle, &Waker::from(counter.clone()));
    }
    let (query_port, query_payload) = dispatch_query(&mut socket);
    let gone = build_message(&query_payload, 0x8183, 0, &[]);
    let woken = socket.receive(query_port, &gone);
    assert_eq!(woken.len(), 2);
    assert!(woken[0].will_wake(&Waker::from(counters[0].clone())));
    assert!(woken[1].will_wake(&Waker::from(counters[2].clone())));
    // Handing them out wakes no one, and they are handed out once
    assert!(counters.iter().all(|counter| counter.0.load(Ordering::SeqCst) == 0));
    assert_eq!(socket.receive(query_port, &gone).len(), 0);
}

#[test]
fn waker_in_place_of_another_is_woken_alone() {
    let mut socket = new_socket();
    let handle = start(&mut socket);
    let before = Arc::new(Counter(AtomicUsize::new(0)));
    let after = Arc::new(Counter(AtomicUsize::new(0)));
    socket.register_query_waker(handle, &Waker::from(before.clone()));
    socket.register_query_waker(handle, &Waker::from(after.clone()));
    let (query_port, query_payload) = dispatch_query(&mut socket);
    process_response(&mut socket, query_port, &build_message(&query_payload, 0x8183, 0, &[]));
    assert_eq!(before.0.load(Ordering::SeqCst), 0);
    assert_eq!(after.0.load(Ordering::SeqCst), 1);
}

#[test]
fn next_request_leaves_the_sending_to_the_caller() {
    let mut socket = new_socket();
    let handle = start(&mut socket);
    let counter = Arc::new(Counter(AtomicUsize::new(0)));
    socket.register_query_waker(handle, &Waker::from(counter.clone()));
    let source = |_: &IpAddress| Some(local_addr());
    for _ in 0..2 {
        // Until it is noted as sent, the request stays due
        let (request, woken) = socket.next_request(Instant::from_micros(0), &source);
        let request = request.unwrap();
        assert_eq!(request.udp_repr, UdpRepr { src_port: 49152, dst_port: 53 });
        assert_eq!(request.ip_repr.dst_addr, server_addr());
        assert_eq!(request.ip_repr.payload_len, 8 + request.payload.len());
        assert!(woken.is_empty());
    }
    socket.request_sent(handle, Instant::from_micros(0));
    assert_eq!(socket.poll_at(), PollAt::Time(Instant::from_micros(1_000_000)));
    let (request, woken) = socket.next_request(Instant::from_micros(10_000_001), &source);
    assert!(request.is_none());
    assert_eq!(woken.len(), 1);
    assert_eq!(socket.get_query_result(handle), Err(GetQueryResultError::Failed));
}

#[test]
fn packets_go_out_at_the_due_times_only() {
    let mut socket = new_socket();
    let handle = socket.start_query(ids(), "a.b", Type::A).unwrap();
    let schedule = [
        (0, true),
        (999_000, false),
        (1_000_000, true),
        (2_999_000, false),
        (3_000_000, true),
        (6_999_000, false),
        (7_000_000, true),
        (10_000_000, false),
    ];
    for (at, sent) in schedule {
        assert_eq!(dispatch_at(&mut socket, at).is_some(), sent);
        assert_eq!(socket.get_query_result(handle), Err(GetQueryResultError::Pending));
    }
    assert!(dispatch_at(&mut socket, 10_000_001).is_none());
    assert_eq!(socket.get_query_result(handle), Err(GetQueryResultError::Failed));
}

#[test]
fn nothing_is_sent_where_nothing_is_owed() {
    let mut socket = Socket::new(&[server_addr()], QuerySlots::owned(vec![None]));
    let r = socket.dispatch(
        Instant::from_micros(0),
        |_| Some(local_addr()),
        |_| -> Result<(), ()> { panic!("nothing is due") },
    );
    assert_eq!(r, Ok(()));
    // A query that was just sent waits, and the next one is sent
    start(&mut socket);
    assert!(dispatch_at(&mut socket, 0).is_some());
    socket
        .start_query(QueryIds { txid: 7, port: 50000 }, "next.org", Type::A)
        .unwrap();
    assert_eq!(dispatch_at(&mut socket, 1).unwrap().1.src_port, 50000);
    let r = socket.dispatch(
        Instant::from_micros(1),
        |_| panic!("no server is to be asked"),
        |_| -> Result<(), ()> { panic!("nothing is due") },
    );
    assert_eq!(r, Ok(()));
}

#[test]
fn request_that_could_not_be_sent_is_handed_out_again() {
    let mut socket = new_socket();
    start(&mut socket);
    let mut first = None;
    let r = socket.dispatch(
        Instant::from_micros(5),
        |_| Some(local_addr()),
        |(ip_repr, udp_repr, payload)| {
            first = Some((ip_repr, udp_repr, payload.to_vec()));
            Err(7)
        },
    );
    assert_eq!(r, Err(7));
    assert_eq!(socket.poll_at(), PollAt::Time(Instant::from_micros(0)));
    assert!(first.is_some());
    assert_eq!(dispatch_at(&mut socket, 5), first);
    assert_eq!(socket.poll_at(), PollAt::Time(Instant::from_micros(1_000_005)));
}

#[test]
fn message_that_comes_twice_says_nothing_new() {
    let mut socket = new_socket();
    let handle = start(&mut socket);
    let (query_port, query_payload) = dispatch_query(&mut socket);
    // An alias, and then a record that breaks off: the query moves and stays
    let answers = [alias_answer(), vec![0xc0]].concat();
    let response = build_message(&query_payload, 0x8180, 2, &answers);
    for at in [2_000_000, 5_000_000] {
        process_response(&mut socket, query_port, &response);
        let (_, _, payload) = dispatch_at(&mut socket, at).unwrap();
        assert_eq!(payload[12..], *b"\x01t\x07example\x03com\x00\x00\x01\x00\x01");
    }
    assert_eq!(socket.get_query_result(handle), Err(GetQueryResultError::Pending));
}

/// An alias record from one name to another, both in wire format.
fn alias_from(name: &[u8], target: &[u8]) -> Vec<u8> {
    let mut record = name.to_vec();
    record.extend_from_slice(&[0, 5, 0, 1, 0, 0, 0, 60, 0, target.len() as u8]);
    record.extend_from_slice(target);
    record
}

/// An address record of a name in wire format.
fn address_of(name: &[u8], last: u8) -> Vec<u8> {
    let mut record = name.to_vec();
    record.extend_from_slice(&[0, 1, 0, 1, 0, 0, 0, 60, 0, 4, 1, 2, 3, last]);
    record
}

#[test]
fn chain_of_aliases_is_followed_among_other_records() {
    let mut socket = new_socket();
    let handle = start(&mut socket);
    let (query_port, query_payload) = dispatch_query(&mut socket);
    let (one, two): (&[u8], &[u8]) = (b"\x03one\x00", b"\x03two\x00");
    let answers = [
        // Counts no more, or not yet, at its place
        address_of(two, 97),
        alias_from(&[0xc0, 0x0c], one),
        address_of(&[0xc0, 0x0c], 98),
        address_of(two, 99),
        alias_from(one, two),
        alias_from(b"\x05other\x00", one),
        address_of(two, 4),
        address_of(two, 5),
    ]
    .concat();
    let response = build_message(&query_payload, 0x8180, 8, &answers);
    process_response(&mut socket, query_port, &response);
    assert_eq!(socket.get_query_result(handle), Ok(only(expected_address_result())));
}

#[test]
fn hop_limit_set_last_is_used() {
    let mut socket = new_socket();
    socket.set_hop_limit(Some(3));
    socket.set_hop_limit(Some(200));
    start(&mut socket);
    socket.update_servers(&[server_addr()]);
    assert_eq!(dispatch_at(&mut socket, 0).unwrap().0.hop_limit, 200);
    socket.set_hop_limit(None);
    assert_eq!(dispatch_at(&mut socket, 1_000_000).unwrap().0.hop_limit, 64);
}
