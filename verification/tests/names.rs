//! Names as text, as labels and in wire format.

use dns_socket::config::DNS_MAX_NAME_SIZE;
use dns_socket::error::{Error, StartQueryError};
use dns_socket::name::{bytes_equal, copy_name, encode_text, eq_names, Labels};
use dns_socket::query::{MulticastDns, QueryIds};
use dns_socket::slots::QuerySlots;
use dns_socket::socket::Socket;
use dns_socket::wire::{Opcode, Packet, Question, Rcode, Record, RecordData, Repr, Type};

fn encoded(text: &str) -> Result<(Vec<u8>, bool), StartQueryError> {
    encode_text(text.as_bytes()).map(|(raw, local)| (raw.to_vec(), local))
}

fn wire(text: &str) -> Vec<u8> {
    encoded(text).unwrap().0
}

#[test]
fn text_is_written_in_wire_format() {
    assert_eq!(wire("rust-lang.org"), b"\x09rust-lang\x03org\x00".to_vec());
    assert_eq!(wire("a"), b"\x01a\x00".to_vec());
}

#[test]
fn trailing_dot_makes_no_difference() {
    assert_eq!(encoded("rust-lang.org."), encoded("rust-lang.org"));
    assert_eq!(encoded("printer.local."), encoded("printer.local"));
    assert_eq!(encoded("."), encoded(""));
    // A second one does
    assert_eq!(encoded("rust-lang.org.."), Err(StartQueryError::InvalidName));
}

#[test]
fn names_that_are_invalid() {
    for text in ["", ".", "..", ".a", "a..b"] {
        assert_eq!(encoded(text), Err(StartQueryError::InvalidName));
    }
    let label = "x".repeat(63);
    assert!(encoded(&label).is_ok());
    let label = "x".repeat(64);
    assert_eq!(encoded(&label), Err(StartQueryError::InvalidName));
}

#[test]
fn names_that_are_too_long() {
    // 126 labels of one byte and the end: 253 bytes
    let text = vec!["a"; 126].join(".");
    assert_eq!(wire(&text).len(), 253);
    // 127 labels of one byte and the end: 255 bytes, the limit
    let text = vec!["a"; 127].join(".");
    assert_eq!(wire(&text).len(), DNS_MAX_NAME_SIZE);
    let text = vec!["a"; 128].join(".");
    assert_eq!(encoded(&text), Err(StartQueryError::NameTooLong));
    // No room for the end
    let text = format!("bb.{}", vec!["a"; 126].join("."));
    assert_eq!(encoded(&text), Err(StartQueryError::NameTooLong));
    // What is wrong first decides
    let text = format!("{}..", vec!["a"; 130].join("."));
    assert_eq!(encoded(&text), Err(StartQueryError::NameTooLong));
    let text = format!("a..{}", vec!["a"; 130].join("."));
    assert_eq!(encoded(&text), Err(StartQueryError::InvalidName));
}

#[test]
fn local_names() {
    assert!(encoded("printer.local").unwrap().1);
    assert!(encoded("local").unwrap().1);
    assert!(!encoded("local.org").unwrap().1);
    assert!(!encoded("alocal").unwrap().1);
    assert!(!encoded("printer.Local").unwrap().1);
}

fn compared(packet: &[u8], a: &[u8], b: &[u8]) -> Result<bool, Error> {
    let there = eq_names(Labels::new(packet, a), Labels::new(packet, b));
    let back = eq_names(Labels::new(packet, b), Labels::new(packet, a));
    assert_eq!(there, back);
    there
}

#[test]
fn names_are_compared_by_label() {
    let packet = b"\x03com\x00";
    assert_eq!(compared(packet, b"\x01a\x03com\x00", b"\x01a\xc0\x00"), Ok(true));
    assert_eq!(compared(packet, b"\x01a\x03com\x00", b"\x01b\xc0\x00"), Ok(false));
    assert_eq!(compared(packet, b"\x01a\x00", b"\x01a\xc0\x00"), Ok(false));
    // An error counts only where nothing differed before it
    assert_eq!(compared(packet, b"\x01a\x05", b"\x01b\x00"), Ok(false));
    assert_eq!(compared(packet, b"\x01a\x05", b"\x01a\x00"), Err(Error));
    assert_eq!(compared(packet, b"", b"\x01a\x00"), Err(Error));
    assert_eq!(compared(packet, b"\x01a\x80", b"\x01a\x01b\x00"), Err(Error));
    assert_eq!(compared(packet, b"\x01a\xc0\x05", b"\x01a\x03com\x00"), Err(Error));
    assert_eq!(compared(packet, b"\x01a\xc0", b"\x01a\x03com\x00"), Err(Error));
}

#[test]
fn pointers_lead_backwards_only() {
    // The pointer leads to itself
    let packet = b"\x01a\xc0\x00";
    assert_eq!(compared(packet, packet, b"\x01a\x01a\x00"), Err(Error));
    let mut labels = Labels::new(packet, packet);
    assert_eq!(labels.next_label(), Some(Ok(&b"a"[..])));
    assert_eq!(labels.next_label(), Some(Ok(&b"a"[..])));
    assert_eq!(labels.next_label(), Some(Err(Error)));
    assert_eq!(labels.next_label(), Some(Err(Error)));
}

#[test]
fn names_are_copied_without_pointers() {
    let packet = b"\x03com\x00";
    let mut dest = heapless::Vec::from_slice(b"old").unwrap();
    assert_eq!(copy_name(&mut dest, Labels::new(packet, b"\x01a\xc0\x00")), Ok(()));
    assert_eq!(dest.as_slice(), b"\x01a\x03com\x00");
    // What was copied of a name that breaks off stays
    assert_eq!(copy_name(&mut dest, Labels::new(packet, b"\x01b\x05x")), Err(Error));
    assert_eq!(dest.as_slice(), b"\x01b");
}

#[test]
fn names_that_do_not_fit_are_copied_in_part() {
    let mut name = Vec::new();
    for _ in 0..3 {
        name.push(63);
        name.extend_from_slice(&[b'a'; 63]);
    }
    let mut dest: heapless::Vec<u8, DNS_MAX_NAME_SIZE> = heapless::Vec::new();
    // 254 bytes and the end: it just fits
    let fitting = [&name[..], &[61], &[b'b'; 61], &[0]].concat();
    assert_eq!(copy_name(&mut dest, Labels::new(&[], &fitting)), Ok(()));
    assert_eq!(dest.as_slice(), &fitting[..]);
    // No room for the end
    let over = [&name[..], &[62], &[b'b'; 62], &[0]].concat();
    assert_eq!(copy_name(&mut dest, Labels::new(&[], &over)), Err(Error));
    assert_eq!(dest.as_slice(), &over[..255]);
    // No room for the last label, but for its length
    let over = [&name[..], &[63], &[b'b'; 63], &[0]].concat();
    assert_eq!(copy_name(&mut dest, Labels::new(&[], &over)), Err(Error));
    assert_eq!(dest.as_slice(), &over[..193]);
}

#[test]
fn bytes_are_compared() {
    assert!(bytes_equal(b"abc", b"abc"));
    assert!(!bytes_equal(b"abc", b"abd"));
    assert!(!bytes_equal(b"abc", b"ab"));
}

#[test]
fn start_query_reports_the_name() {
    let ids = QueryIds { txid: 1, port: 2 };
    let mut socket = Socket::new(&[], QuerySlots::owned(vec![]));
    let error = socket.start_query(ids, "a..b", Type::A).err();
    assert_eq!(error, Some(StartQueryError::InvalidName));
    let error = socket.start_query(ids, &vec!["a"; 128].join("."), Type::A).err();
    assert_eq!(error, Some(StartQueryError::NameTooLong));
    let error = socket
        .start_query_raw(ids, &[1; 256], Type::A, MulticastDns::Disabled)
        .err();
    assert_eq!(error, Some(StartQueryError::NameTooLong));
}

#[test]
fn name_too_long_still_adds_a_slot() {
    let ids = QueryIds { txid: 1, port: 2 };
    let mut slots = QuerySlots::owned(vec![]);
    assert_eq!(slots.len(), 0);
    slots = QuerySlots::owned(vec![None, None]);
    assert_eq!(slots.len(), 2);
    let mut socket = Socket::new(&[], QuerySlots::owned(vec![]));
    let error = socket
        .start_query_raw(ids, &[1; 256], Type::A, MulticastDns::Disabled)
        .err();
    assert_eq!(error, Some(StartQueryError::NameTooLong));
    assert!(socket
        .start_query_raw(ids, &[1; 255], Type::A, MulticastDns::Disabled)
        .is_ok());
}

#[test]
fn start_errors_in_words() {
    assert_eq!(StartQueryError::NoFreeSlot.message(), "No free slot");
    assert_eq!(StartQueryError::InvalidName.message(), "Invalid name");
    assert_eq!(StartQueryError::NameTooLong.message(), "Name too long");
}

#[test]
fn query_message_reads_back() {
    let name = wire("a.bc");
    let repr = Repr {
        transaction_id: 0xbeef,
        flags: 0x0100,
        question: Question { name: &name, type_: Type::Aaaa },
    };
    let message = repr.emit();
    let packet = Packet::new_checked(&message).unwrap();
    assert_eq!(packet.transaction_id(), 0xbeef);
    assert_eq!(packet.opcode(), Opcode::Query);
    assert_eq!(packet.rcode(), Rcode::NoError);
    assert!(!packet.is_response());
    assert_eq!(packet.question_count(), 1);
    assert_eq!(packet.answer_record_count(), 0);
    let (rest, question) = Question::parse(packet.payload()).unwrap();
    assert_eq!(question.name, &name[..]);
    assert_eq!(question.type_, Type::Aaaa);
    assert!(rest.is_empty());
    assert!(Packet::new_checked(&message[..11]).is_err());
}

#[test]
fn record_fields() {
    let bytes = b"\x01a\x00\x00\x01\x00\x01\x00\x01\x02\x03\x00\x04\x01\x02\x03\x04tail";
    let (rest, record) = Record::parse(bytes).unwrap();
    assert_eq!(record.name, b"\x01a\x00");
    assert_eq!(record.ttl, 0x0001_0203);
    assert_eq!(rest, b"tail");
    match record.data {
        RecordData::A(address) => assert_eq!(address.bits, 0x0102_0304),
        _ => panic!("an address was expected"),
    }
    assert!(Record::parse(&bytes[..16]).is_err());
    let other = b"\x00\x00\x10\x00\x01\x00\x00\x00\x00\x00\x02hi";
    match Record::parse(other).unwrap().1.data {
        RecordData::Other(type_, data) => {
            assert_eq!(type_, Type::Unknown(16));
            assert_eq!(data, b"hi");
        }
        _ => panic!("other data was expected"),
    }
}

#[test]
fn codes_and_types() {
    for code in [1, 2, 5, 6, 28, 33, 255] {
        assert_eq!(Type::from_code(code).code(), code);
    }
    assert_eq!(Type::from_code(33), Type::Srv);
    assert_eq!(Rcode::from_code(3), Rcode::NXDomain);
    assert_eq!(Rcode::from_code(11), Rcode::Unknown(11));
    assert_eq!(Opcode::from_code(2), Opcode::Status);
    assert_eq!(Opcode::from_code(9), Opcode::Unknown(9));
}
