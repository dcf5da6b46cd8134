//! What holds of the socket as a whole, stated over the mathematical values
//! that the contracts of its functions speak of.

pub mod lookups;
pub mod messages;
pub mod names;
pub mod schedule;
pub mod sockets;

use vstd::prelude::*;

use crate::answer;
use crate::answer::VerdictModel;
use crate::config::{
    DNS_MAX_NAME_SIZE, DNS_MAX_RESULT_COUNT, DNS_MAX_SERVER_COUNT, DNS_MAX_TARGET_SIZE,
};
use crate::error::{Error, GetQueryResultError, StartQueryError};
use crate::ip::{IpAddress, IpRepr, UdpRepr};
use crate::name;
use crate::name::{NameModel, DOT};
use crate::query;
use crate::query::{
    MulticastDns, PendingModel, QueryIds, QueryModel, StateModel, DNS_PORT, MAX_RETRANSMIT_DELAY,
    MDNS_DNS_PORT, RETRANSMIT_DELAY, RETRANSMIT_TIMEOUT,
};
use crate::result::{ResultModel, SrvRecord};
use crate::socket;
use crate::socket::{Request, SocketModel};
use crate::wire;
use crate::wire::{
    HeaderModel, Opcode, QuestionModel, Rcode, RecordDataModel, RecordModel, Type, CLASS_IN,
    FLAG_RECURSION_DESIRED, FLAG_RESPONSE, HEADER_LEN,
};

verus! {

proof fn lemma_encode_utf8_push(text: Seq<char>, c: char)
    ensures
        vstd::utf8::encode_utf8(text.push(c)) == vstd::utf8::encode_utf8(text)
            + vstd::utf8::encode_scalar(c as u32),
    decreases text.len(),
{
    let longer = text.push(c);
    if text.len() == 0 {
        assert(longer.drop_first() =~= Seq::<char>::empty());
        assert(vstd::utf8::encode_utf8(longer.drop_first()) =~= Seq::<u8>::empty());
        assert(vstd::utf8::encode_utf8(longer) =~= vstd::utf8::encode_utf8(text)
            + vstd::utf8::encode_scalar(c as u32));
    } else {
        assert(longer.drop_first() =~= text.drop_first().push(c));
        lemma_encode_utf8_push(text.drop_first(), c);
        assert(vstd::utf8::encode_utf8(longer) =~= vstd::utf8::encode_utf8(text)
            + vstd::utf8::encode_scalar(c as u32));
    }
}

proof fn lemma_last_byte_dot(c: char)
    ensures
        vstd::utf8::encode_scalar(c as u32).len() > 0,
        (vstd::utf8::encode_scalar(c as u32).last() == DOT) == (c == '.'),
        vstd::utf8::encode_scalar('.' as u32) == seq![DOT],
{
    let v = c as u32;
    vstd::utf8::char_is_scalar(c);
    assert(v <= 0x7f ==> (v & 0x7f) as u8 == v) by (bit_vector);
    assert((0x80 | (v & 0x3f) as u8) >= 0x80) by (bit_vector);
    assert((0x2eu32 & 0x7f) as u8 == 0x2e) by (bit_vector);
    assert(vstd::utf8::encode_scalar('.' as u32) =~= seq![DOT]);
}

/// A name is treated the same with and without a trailing dot.
pub proof fn law_trailing_dot(socket: SocketModel, name: Seq<char>, type_: Type, ids: QueryIds)
    requires
        name.len() == 0 || name.last() != '.',
    ensures
        socket.started_text(vstd::utf8::encode_utf8(name.push('.')), type_, ids)
            == socket.started_text(vstd::utf8::encode_utf8(name), type_, ids),
{
    let bare = vstd::utf8::encode_utf8(name);
    let dotted = vstd::utf8::encode_utf8(name.push('.'));
    lemma_encode_utf8_push(name, '.');
    lemma_last_byte_dot('.');
    assert(dotted =~= bare.push(DOT));
    assert(dotted.drop_last() =~= bare);
    if name.len() == 0 {
        assert(bare =~= Seq::<u8>::empty());
        let parts = name::split(bare);
        assert(parts.drop_last() =~= Seq::<Seq<u8>>::empty());
        reveal_with_fuel(name::wire_labels, 2);
        assert(name::wire_labels(parts) == Err::<Seq<u8>, StartQueryError>(
            StartQueryError::InvalidName,
        ));
    } else {
        lemma_encode_utf8_push(name.drop_last(), name.last());
        assert(name.drop_last().push(name.last()) =~= name);
        lemma_last_byte_dot(name.last());
        assert(bare.last() == vstd::utf8::encode_scalar(name.last() as u32).last());
    }
}

pub(crate) proof fn lemma_wire_labels_encode(labels: Seq<Seq<u8>>)
    ensures
        name::wire_labels(labels) matches Ok(wire) ==> wire == name::encode_labels(labels)
            && wire.len() <= DNS_MAX_NAME_SIZE && forall|i: int|
            0 <= i < labels.len() ==> name::valid_label(#[trigger] labels[i]),
    decreases labels.len(),
{
    if labels.len() > 0 {
        lemma_wire_labels_encode(labels.drop_last());
        if name::wire_labels(labels) is Ok {
            assert forall|i: int| 0 <= i < labels.len() implies name::valid_label(
                #[trigger] labels[i],
            ) by {
                if i < labels.len() - 1 {
                    assert(labels.drop_last()[i] == labels[i]);
                }
            }
        }
    }
}

proof fn lemma_wire_labels_accepts(labels: Seq<Seq<u8>>)
    ensures
        name::wire_labels(labels) is Ok <==> name::encode_labels(labels).len() <= DNS_MAX_NAME_SIZE
            && forall|i: int|
            0 <= i < labels.len() ==> name::valid_label(#[trigger] labels[i]),
    decreases labels.len(),
{
    if labels.len() > 0 {
        let before = labels.drop_last();
        lemma_wire_labels_accepts(before);
        lemma_wire_labels_encode(before);
        let last = labels.len() - 1;
        let all = forall|i: int| 0 <= i < labels.len() ==> name::valid_label(#[trigger] labels[i]);
        let all_before = forall|i: int|
            0 <= i < before.len() ==> name::valid_label(#[trigger] before[i]);
        if all {
            assert forall|i: int| 0 <= i < before.len() implies name::valid_label(
                #[trigger] before[i],
            ) by {
                assert(before[i] == labels[i]);
            }
            assert(name::valid_label(labels[last]));
        }
        if all_before && name::valid_label(labels[last]) {
            assert forall|i: int| 0 <= i < labels.len() implies name::valid_label(
                #[trigger] labels[i],
            ) by {
                if i < last {
                    assert(before[i] == labels[i]);
                }
            }
        }
    }
}

proof fn lemma_split_len(text: Seq<u8>)
    ensures
        name::split(text).len() > 0,
        name::encode_labels(name::split(text)).len() == text.len() + 1,
    decreases text.len(),
{
    let parts = name::split(text);
    reveal_with_fuel(name::encode_labels, 2);
    if text.len() == 0 {
        assert(parts.drop_last() =~= Seq::<Seq<u8>>::empty());
    } else {
        let before = name::split(text.drop_last());
        lemma_split_len(text.drop_last());
        if text.last() == DOT {
            assert(parts.drop_last() =~= before);
        } else {
            assert(parts.drop_last() =~= before.drop_last());
        }
    }
}

/// Bytes of a text without the dot at its end.
pub open spec fn bare_len(text: Seq<u8>) -> int {
    if text.len() > 0 && text.last() == DOT {
        text.len() - 1
    } else {
        text.len() as int
    }
}

/// A name given as text is accepted exactly where every label has 1 to 63
/// bytes and the text, without the dot at its end, leaves room for the byte
/// before the first label and the one that ends the name.
pub proof fn law_text_accepted(text: Seq<u8>)
    ensures
        name::wire_name(text) is Ok <==> bare_len(text) <= DNS_MAX_NAME_SIZE - 2 && forall|i: int|
            0 <= i < name::text_labels(text).len() ==> name::valid_label(
                #[trigger] name::text_labels(text)[i],
            ),
{
    let labels = name::text_labels(text);
    if text.len() > 0 && text.last() == DOT {
        lemma_split_len(text.drop_last());
    } else {
        lemma_split_len(text);
    }
    lemma_wire_labels_accepts(labels);
    lemma_wire_labels_encode(labels);
    if text.len() == 0 {
        assert(!name::valid_label(labels[0]));
    }
}

proof fn lemma_decode_wire(packet: Seq<u8>, labels: Seq<Seq<u8>>, tail: Seq<u8>)
    requires
        forall|i: int| 0 <= i < labels.len() ==> name::valid_label(#[trigger] labels[i]),
    ensures
        ({
            let wire = name::encode_labels(labels).push(0);
            &&& NameModel::decode(packet, wire + tail) == (NameModel { labels, complete: true })
            &&& wire::name_len(wire + tail) == Some(wire.len() as int)
        }),
    decreases labels.len(),
{
    let wire = name::encode_labels(labels).push(0);
    let bytes = wire + tail;
    if labels.len() == 0 {
        assert(bytes[0] == 0);
        assert(labels =~= Seq::<Seq<u8>>::empty());
    } else {
        let rest = labels.drop_first();
        name::lemma_encode_front(labels);
        assert(name::valid_label(labels[0]));
        assert forall|i: int| 0 <= i < rest.len() implies name::valid_label(
            #[trigger] rest[i],
        ) by {
            assert(rest[i] == labels[i + 1]);
        }
        lemma_decode_wire(packet, rest, tail);
        let len = labels[0].len() as int;
        assert(bytes[0] == len);
        assert(bytes.skip(1 + len) =~= name::encode_labels(rest).push(0) + tail);
        assert(bytes.subrange(1, 1 + len) =~= labels[0]);
        assert(seq![labels[0]] + rest =~= labels);
    }
}

/// A name that is accepted as text is written so that whoever reads it finds
/// its labels, whatever else the packet holds.
pub proof fn law_name_reads_back(text: Seq<u8>, packet: Seq<u8>)
    ensures
        name::wire_name(text) matches Ok(wire) ==> NameModel::decode(packet, wire) == (NameModel {
            labels: name::text_labels(text),
            complete: true,
        }) && wire.len() <= DNS_MAX_NAME_SIZE,
{
    let labels = name::text_labels(text);
    lemma_wire_labels_encode(labels);
    if let Ok(wire) = name::wire_name(text) {
        lemma_decode_wire(packet, labels, Seq::empty());
        assert(wire + Seq::<u8>::empty() =~= wire);
    }
}

/// A message in wire format with one question and so many answer records.
pub open spec fn message(
    txid: u16,
    flags: u16,
    question: QuestionModel,
    count: u16,
    records: Seq<u8>,
) -> Seq<u8> {
    wire::be16_bytes(txid) + wire::be16_bytes(flags) + wire::be16_bytes(1) + wire::be16_bytes(count)
        + wire::be16_bytes(0) + wire::be16_bytes(0) + question.emit() + records
}

proof fn lemma_be16(bytes: Seq<u8>, at: int, value: u16)
    requires
        0 <= at,
        at + 2 <= bytes.len(),
        bytes[at] == (value / 256) as u8,
        bytes[at + 1] == (value % 256) as u8,
    ensures
        wire::be16(bytes, at) == value,
{
}

proof fn lemma_message_parses(
    txid: u16,
    flags: u16,
    question: QuestionModel,
    count: u16,
    records: Seq<u8>,
)
    requires
        forall|tail: Seq<u8>| #[trigger]
            wire::name_len(question.name + tail) == Some(question.name.len() as int),
        Type::from_code(question.type_.code()) == question.type_,
    ensures
        ({
            let packet = message(txid, flags, question, count, records);
            &&& packet.len() >= HEADER_LEN
            &&& packet.skip(HEADER_LEN as int) == question.emit() + records
            &&& HeaderModel::parse(packet) == (HeaderModel {
                transaction_id: txid,
                response: flags >= FLAG_RESPONSE,
                opcode: Opcode::from_code((flags / 0x800 % 16) as u8),
                rcode: Rcode::from_code((flags % 16) as u8),
                question_count: 1,
                answer_record_count: count,
            })
            &&& QuestionModel::parse(packet.skip(HEADER_LEN as int)) == Some((question, records))
        }),
{
    let packet = message(txid, flags, question, count, records);
    lemma_be16(packet, 0, txid);
    lemma_be16(packet, 2, flags);
    lemma_be16(packet, 4, 1);
    lemma_be16(packet, 6, count);
    let body = question.emit() + records;
    assert(packet.skip(HEADER_LEN as int) =~= body);
    let n = question.name.len() as int;
    let tail = wire::be16_bytes(question.type_.code()) + wire::be16_bytes(CLASS_IN) + records;
    assert(body =~= question.name + tail);
    assert(wire::name_len(question.name + tail) == Some(n));
    lemma_be16(body, n, question.type_.code());
    lemma_be16(body, n + 2, CLASS_IN);
    assert(body.take(n) =~= question.name);
    assert(body.skip(n + 4) =~= records);
}

proof fn lemma_text_name_len(text: Seq<u8>, wire: Seq<u8>)
    requires
        name::wire_name(text) == Ok::<Seq<u8>, StartQueryError>(wire),
    ensures
        forall|tail: Seq<u8>| #[trigger]
            wire::name_len(wire + tail) == Some(wire.len() as int),
        forall|packet: Seq<u8>, tail: Seq<u8>| #[trigger]
            NameModel::decode(packet, wire + tail) == (NameModel {
                labels: name::text_labels(text),
                complete: true,
            }),
{
    let labels = name::text_labels(text);
    lemma_wire_labels_encode(labels);
    assert forall|tail: Seq<u8>| #[trigger]
        wire::name_len(wire + tail) == Some(wire.len() as int) by {
        lemma_decode_wire(Seq::empty(), labels, tail);
    }
    assert forall|packet: Seq<u8>, tail: Seq<u8>| #[trigger]
        NameModel::decode(packet, wire + tail) == (NameModel { labels, complete: true }) by {
        lemma_decode_wire(packet, labels, tail);
    }
}

/// The request of a query for a name that was accepted as text reads as what
/// it is: a query with the ID of the query, one question and no answer, which
/// asks for the name and the type, and for recursion. The type must not be a
/// known one under the name of an unknown one.
pub proof fn law_request_reads_back(text: Seq<u8>, pending: PendingModel)
    requires
        name::wire_name(text) == Ok::<Seq<u8>, StartQueryError>(pending.name),
        Type::from_code(pending.type_.code()) == pending.type_,
    ensures
        HeaderModel::parse(pending.request()) == (HeaderModel {
            transaction_id: pending.txid,
            response: false,
            opcode: Opcode::Query,
            rcode: Rcode::NoError,
            question_count: 1,
            answer_record_count: 0,
        }),
        wire::be16(pending.request(), 2) == FLAG_RECURSION_DESIRED,
        QuestionModel::parse(pending.request().skip(HEADER_LEN as int)) == Some(
            (QuestionModel { name: pending.name, type_: pending.type_ }, Seq::<u8>::empty()),
        ),
{
    let question = QuestionModel { name: pending.name, type_: pending.type_ };
    let packet = message(pending.txid, FLAG_RECURSION_DESIRED, question, 0, Seq::empty());
    assert(packet =~= pending.request());
    lemma_text_name_len(text, pending.name);
    lemma_message_parses(pending.txid, FLAG_RECURSION_DESIRED, question, 0, Seq::empty());
    lemma_be16(packet, 2, FLAG_RECURSION_DESIRED);
}

/// The result that a record holds, if it holds one.
pub open spec fn result_of(packet: Seq<u8>, data: RecordDataModel) -> Option<ResultModel> {
    match data {
        RecordDataModel::A(address) => Some(ResultModel::Address(IpAddress::Ipv4(address))),
        RecordDataModel::Aaaa(address) => Some(ResultModel::Address(IpAddress::Ipv6(address))),
        RecordDataModel::Srv(srv) => match answer::target_text(
            NameModel::decode(packet, srv.target),
        ) {
            Ok(target) => Some(
                ResultModel::Srv(
                    SrvRecord { priority: srv.priority, weight: srv.weight, port: srv.port, target },
                ),
            ),
            Err(_) => None,
        },
        _ => None,
    }
}

/// An answer record in wire format whose name is a pointer to the question.
pub open spec fn answer_record(type_: Type, ttl: Seq<u8>, data: Seq<u8>) -> Seq<u8> {
    seq![0xc0u8, 0x0cu8] + wire::be16_bytes(type_.code()) + wire::be16_bytes(CLASS_IN) + ttl
        + wire::be16_bytes(data.len() as u16) + data
}

/// How a query ends whose one answer record holds the given data.
pub open spec fn outcome_of(packet: Seq<u8>, data: RecordDataModel) -> StateModel {
    match (result_of(packet, data), data) {
        (Some(result), _) => StateModel::Completed(seq![result]),
        (None, RecordDataModel::Srv(srv)) => StateModel::Failure(
            answer::target_text(NameModel::decode(packet, srv.target))->Err_0,
        ),
        (None, _) => StateModel::Failure(GetQueryResultError::Failed),
    }
}

proof fn lemma_answer_record_parses(type_: Type, ttl: Seq<u8>, data: Seq<u8>)
    requires
        Type::from_code(type_.code()) == type_,
        ttl.len() == 4,
        data.len() <= u16::MAX,
    ensures
        match RecordDataModel::parse(type_, data) {
            Some(parsed) => {
                &&& RecordModel::parse(answer_record(type_, ttl, data)) matches Some((record, rest))
                &&& record.name == seq![0xc0u8, 0x0cu8]
                &&& record.data == parsed
                &&& rest == Seq::<u8>::empty()
            },
            None => RecordModel::parse(answer_record(type_, ttl, data)) is None,
        },
{
    let record = answer_record(type_, ttl, data);
    assert(record[0] == 0xc0);
    assert(wire::name_len(record) == Some(2int));
    lemma_be16(record, 2, type_.code());
    lemma_be16(record, 4, CLASS_IN);
    lemma_be16(record, 10, data.len() as u16);
    assert(record.subrange(12, 12 + data.len() as int) =~= data);
    assert(record.take(2) =~= seq![0xc0u8, 0x0cu8]);
    assert(record.skip(12 + data.len() as int) =~= Seq::<u8>::empty());
}

/// What one record of the name that is looked up means.
proof fn lemma_one_record(
    packet: Seq<u8>,
    rest: Seq<u8>,
    name: Seq<u8>,
    record: RecordModel,
    end: Seq<u8>,
)
    requires
        RecordModel::parse(rest) == Some((record, end)),
        NameModel::decode(packet, record.name).compare(NameModel::decode(packet, name)) == Ok::<
            bool,
            Error,
        >(true),
        record.data is A || record.data is Aaaa || record.data is Srv,
    ensures
        answer::read_records(packet, rest, 1, name, Seq::empty()).1 == (match outcome_of(
            packet,
            record.data,
        ) {
            StateModel::Completed(results) => VerdictModel::Resolved(results),
            StateModel::Failure(e) => VerdictModel::Failed(e),
            StateModel::Pending(_) => VerdictModel::Ignored,
        }),
{
    reveal_with_fuel(answer::read_records, 2);
    if let Some(found) = result_of(packet, record.data) {
        assert(answer::keep(Seq::empty(), found) =~= seq![found]);
    }
}

proof fn lemma_query_answered(
    query: QueryModel,
    text: Seq<u8>,
    pending: PendingModel,
    flags: u16,
    ttl: Seq<u8>,
    data: Seq<u8>,
)
    requires
        query.state == StateModel::Pending(pending),
        name::wire_name(text) == Ok::<Seq<u8>, StartQueryError>(pending.name),
        Type::from_code(pending.type_.code()) == pending.type_,
        pending.type_ is A || pending.type_ is Aaaa || pending.type_ is Srv,
        ttl.len() == 4,
        data.len() <= u16::MAX,
        RecordDataModel::parse(pending.type_, data) is Some,
    ensures
        ({
            let question = QuestionModel { name: pending.name, type_: pending.type_ };
            let packet = message(
                pending.txid,
                flags,
                question,
                1,
                answer_record(pending.type_, ttl, data),
            );
            query.answered(packet) == QueryModel::ended(
                outcome_of(packet, RecordDataModel::parse(pending.type_, data)->0),
            )
        }),
{
    let question = QuestionModel { name: pending.name, type_: pending.type_ };
    let record = answer_record(pending.type_, ttl, data);
    let packet = message(pending.txid, flags, question, 1, record);
    let full = NameModel { labels: name::text_labels(text), complete: true };
    assert(QuestionModel::parse(packet.skip(HEADER_LEN as int)) == Some((question, record))
        && HeaderModel::parse(packet).answer_record_count == 1) by {
        lemma_text_name_len(text, pending.name);
        lemma_message_parses(pending.txid, flags, question, 1, record);
    }
    assert(NameModel::decode(packet, pending.name) == full) by {
        lemma_text_name_len(text, pending.name);
        assert(pending.name + Seq::<u8>::empty() =~= pending.name);
        assert(NameModel::decode(packet, pending.name + Seq::<u8>::empty()) == full);
    }
    let pointer = seq![0xc0u8, 0x0cu8];
    assert(NameModel::decode(packet, pointer) == full) by {
        lemma_text_name_len(text, pending.name);
        let tail = wire::be16_bytes(question.type_.code()) + wire::be16_bytes(CLASS_IN) + record;
        assert(packet.skip(12) =~= pending.name + tail);
        assert(NameModel::decode(packet.take(12), pending.name + tail) == full);
    }
    law_compare_names(full, full);
    lemma_answer_record_parses(pending.type_, ttl, data);
    let (parsed, end) = RecordModel::parse(record)->0;
    lemma_one_record(packet, record, pending.name, parsed, end);
}

/// A lookup is answered: for every name that was accepted as text, a response
/// that repeats the question and carries one record of the type that was
/// asked for, under a pointer to the question, ends the query with the
/// address in the record, or with the service in it where its target is text
/// that can be kept; no other query changes.
///
/// The response is successful or fails for any reason but that the name does
/// not exist, and the query is the first that waits for it.
pub proof fn law_lookup_answered(
    socket: SocketModel,
    at: int,
    text: Seq<u8>,
    pending: PendingModel,
    flags: u16,
    ttl: Seq<u8>,
    data: Seq<u8>,
)
    requires
        0 <= at < socket.queries.len(),
        socket.queries[at] matches Some(query) && query.state == StateModel::Pending(pending),
        forall|i: int|
            0 <= i < at ==> !(#[trigger] socket.queries[i] matches Some(other) && other.awaits(
                pending.port,
                pending.txid,
            )),
        name::wire_name(text) == Ok::<Seq<u8>, StartQueryError>(pending.name),
        pending.type_ is A || pending.type_ is Aaaa || pending.type_ is Srv,
        flags >= FLAG_RESPONSE,
        flags / 0x800 % 16 == 0,
        flags % 16 != 3,
        ttl.len() == 4,
        data.len() <= u16::MAX,
        RecordDataModel::parse(pending.type_, data) is Some,
    ensures
        ({
            let packet = message(
                pending.txid,
                flags,
                QuestionModel { name: pending.name, type_: pending.type_ },
                1,
                answer_record(pending.type_, ttl, data),
            );
            socket.received(pending.port, packet) == socket.with_queries(
                socket.queries.update(
                    at,
                    Some(
                        QueryModel::ended(
                            outcome_of(packet, RecordDataModel::parse(pending.type_, data)->0),
                        ),
                    ),
                ),
            )
        }),
{
    let question = QuestionModel { name: pending.name, type_: pending.type_ };
    let record = answer_record(pending.type_, ttl, data);
    let packet = message(pending.txid, flags, question, 1, record);
    lemma_text_name_len(text, pending.name);
    lemma_message_parses(pending.txid, flags, question, 1, record);
    lemma_query_answered(socket.queries[at]->0, text, pending, flags, ttl, data);
    let awaiting = socket::is_awaiting(pending.port, pending.txid);
    socket::lemma_first_where(socket.queries, awaiting, at);
}

/// Comparing names finds them equal exactly where both are whole and have the
/// same labels, and it makes no difference which of them comes first.
pub proof fn law_compare_names(a: NameModel, b: NameModel)
    ensures
        a.compare(b) == b.compare(a),
        (a.compare(b) == Ok::<bool, Error>(true)) == (a.complete && b.complete && a.labels
            == b.labels),
{
    let x = a.labels;
    let y = b.labels;
    if x == y {
        assert(x =~= y.subrange(0, x.len() as int));
        assert(y =~= x.subrange(0, y.len() as int));
    }
}

/// The labels that fit take no more than the room, and all of them fit where
/// they do not take more.
proof fn lemma_fitting(labels: Seq<Seq<u8>>, room: nat)
    ensures
        name::fitting(labels, room) <= labels.len(),
        (name::fitting(labels, room) == labels.len()) == (name::encode_labels(labels).len()
            <= room),
        name::encode_labels(labels.take(name::fitting(labels, room) as int)).len() <= room,
    decreases labels.len(),
{
    let k = name::fitting(labels, room) as int;
    if labels.len() > 0 {
        name::lemma_encode_front(labels);
    }
    if labels.len() > 0 && 1 + labels[0].len() <= room {
        let rest = labels.drop_first();
        lemma_fitting(rest, (room - 1 - labels[0].len()) as nat);
        name::lemma_encode_front(labels.take(k));
        assert(labels.take(k).drop_first() =~= rest.take(k - 1));
    } else {
        assert(labels.take(0) =~= Seq::<Seq<u8>>::empty());
    }
}

/// An alias that a query follows is kept so that whoever reads it finds its
/// labels, and a query follows every whole alias that fits into a name buffer.
pub proof fn law_alias_reads_back(packet: Seq<u8>, alias: Seq<u8>, other_packet: Seq<u8>)
    ensures
        ({
            let decoded = NameModel::decode(packet, alias);
            let (kept, whole) = decoded.copied();
            &&& whole == (decoded.complete && name::encode_labels(decoded.labels).len()
                < DNS_MAX_NAME_SIZE)
            &&& whole ==> NameModel::decode(other_packet, kept) == decoded
        }),
{
    let decoded = NameModel::decode(packet, alias);
    name::lemma_decoded_labels_valid(packet, alias);
    lemma_fitting(decoded.labels, DNS_MAX_NAME_SIZE as nat);
    assert(decoded.labels.take(decoded.labels.len() as int) =~= decoded.labels);
    if decoded.copied().1 {
        lemma_decode_wire(other_packet, decoded.labels, Seq::empty());
        assert(decoded.copied().0 + Seq::<u8>::empty() =~= decoded.copied().0);
    }
}

/// Whether a message repeats the question of a pending query, `rest` being
/// the bytes after the question.
pub open spec fn repeats_question(packet: Seq<u8>, pending: PendingModel, rest: Seq<u8>) -> bool {
    &&& QuestionModel::parse(packet.skip(HEADER_LEN as int)) matches Some((question, after))
    &&& after == rest
    &&& question.type_ == pending.type_
    &&& NameModel::decode(packet, question.name).compare(NameModel::decode(packet, pending.name))
        == Ok::<bool, Error>(true)
}

/// The next `count` records, where all of them can be read.
pub open spec fn parsed_records(rest: Seq<u8>, count: nat) -> Option<Seq<RecordModel>>
    decreases count,
{
    if count == 0 {
        Some(Seq::empty())
    } else {
        match RecordModel::parse(rest) {
            None => None,
            Some((record, after)) => match parsed_records(after, (count - 1) as nat) {
                None => None,
                Some(records) => Some(seq![record] + records),
            },
        }
    }
}

/// Whether a record belongs to a name.
pub open spec fn belongs(packet: Seq<u8>, record: RecordModel, name: NameModel) -> bool {
    NameModel::decode(packet, record.name).compare(name) == Ok::<bool, Error>(true)
}

/// The name that counts at a place in a list of records, for a lookup of
/// `name`: each alias of the name that counts makes the name behind it count
/// from the next record on.
pub open spec fn name_at(
    packet: Seq<u8>,
    records: Seq<RecordModel>,
    name: NameModel,
    at: int,
) -> NameModel
    decreases at,
{
    if at <= 0 {
        name
    } else {
        let before = name_at(packet, records, name, at - 1);
        match records[at - 1].data {
            RecordDataModel::Cname(alias) => if belongs(packet, records[at - 1], before) {
                NameModel::decode(packet, alias)
            } else {
                before
            },
            _ => before,
        }
    }
}

/// That name in wire format, as a query keeps it: as it was given, or spelled
/// out from the alias that it moved to last.
pub open spec fn bytes_at(
    packet: Seq<u8>,
    records: Seq<RecordModel>,
    given: Seq<u8>,
    at: int,
) -> Seq<u8>
    decreases at,
{
    if at <= 0 {
        given
    } else {
        let before = name_at(packet, records, NameModel::decode(packet, given), at - 1);
        match records[at - 1].data {
            RecordDataModel::Cname(alias) if belongs(packet, records[at - 1], before) => {
                names::spelled(NameModel::decode(packet, alias).labels)
            },
            _ => bytes_at(packet, records, given, at - 1),
        }
    }
}

/// The results in the records before a place that belong to the name that
/// counts at their place, in their order.
pub open spec fn results_until(
    packet: Seq<u8>,
    records: Seq<RecordModel>,
    name: NameModel,
    end: int,
) -> Seq<ResultModel>
    decreases end,
{
    if end <= 0 {
        Seq::empty()
    } else {
        let before = results_until(packet, records, name, end - 1);
        if belongs(packet, records[end - 1], name_at(packet, records, name, end - 1)) {
            match result_of(packet, records[end - 1].data) {
                Some(result) => before.push(result),
                None => before,
            }
        } else {
            before
        }
    }
}

/// Whether a record can be compared with the name that counts and, where it
/// belongs to it, is no alias that breaks off or does not fit, and no service
/// whose target cannot be kept.
pub open spec fn is_usable(packet: Seq<u8>, record: RecordModel, name: NameModel) -> bool {
    &&& NameModel::decode(packet, record.name).compare(name) is Ok
    &&& belongs(packet, record, name) ==> {
        &&& record.data matches RecordDataModel::Cname(alias) ==> NameModel::decode(
            packet,
            alias,
        ).complete && name::encode_labels(NameModel::decode(packet, alias).labels).len()
            < DNS_MAX_NAME_SIZE
        &&& record.data matches RecordDataModel::Srv(srv) ==> answer::target_text(
            NameModel::decode(packet, srv.target),
        ) is Ok
    }
}

/// As many results as a query keeps of them, from the first on.
pub open spec fn kept_results(results: Seq<ResultModel>) -> Seq<ResultModel> {
    if results.len() > DNS_MAX_RESULT_COUNT {
        results.take(DNS_MAX_RESULT_COUNT as int)
    } else {
        results
    }
}

/// The bytes after the next `count` records.
pub open spec fn bytes_after(rest: Seq<u8>, count: nat) -> Seq<u8>
    decreases count,
{
    if count == 0 {
        rest
    } else {
        match RecordModel::parse(rest) {
            None => rest,
            Some((_, after)) => bytes_after(after, (count - 1) as nat),
        }
    }
}

/// Reading goes past usable records: the query then stands at the name that
/// counts, and has found the results before that place.
proof fn lemma_usable_records(
    packet: Seq<u8>,
    records: Seq<RecordModel>,
    given: Seq<u8>,
    at: int,
    rest: Seq<u8>,
    count: nat,
)
    requires
        0 <= at <= records.len(),
        records.len() - at <= count,
        parsed_records(rest, (records.len() - at) as nat) == Some(records.skip(at)),
        NameModel::decode(packet, bytes_at(packet, records, given, at)) == name_at(
            packet,
            records,
            NameModel::decode(packet, given),
            at,
        ),
        forall|i: int|
            0 <= i < records.len() ==> is_usable(
                packet,
                #[trigger] records[i],
                name_at(packet, records, NameModel::decode(packet, given), i),
            ),
    ensures
        ({
            let name = NameModel::decode(packet, given);
            let end = records.len() as int;
            let bytes_then = bytes_at(packet, records, given, end);
            &&& NameModel::decode(packet, bytes_then) == name_at(packet, records, name, end)
            &&& answer::read_records(
                packet,
                rest,
                count,
                bytes_at(packet, records, given, at),
                kept_results(results_until(packet, records, name, at)),
            ) == answer::read_records(
                packet,
                bytes_after(rest, (records.len() - at) as nat),
                (count - (records.len() - at)) as nat,
                bytes_then,
                kept_results(results_until(packet, records, name, end)),
            )
        }),
    decreases records.len() - at,
{
    if at < records.len() {
        let name = NameModel::decode(packet, given);
        let (record, after) = RecordModel::parse(rest)->0;
        let later = parsed_records(after, (records.len() - at - 1) as nat)->0;
        let here = name_at(packet, records, name, at);
        let found = results_until(packet, records, name, at);
        assert((seq![record] + later)[0] == records.skip(at)[0]);
        assert(record == records[at]);
        assert(later =~= records.skip(at + 1)) by {
            assert((seq![record] + later).drop_first() =~= later);
        }
        assert(is_usable(packet, records[at], here));
        if let Some(result) = result_of(packet, record.data) {
            assert(kept_results(found.push(result)) =~= answer::keep(kept_results(found), result));
        }
        if let RecordDataModel::Cname(alias) = record.data {
            if belongs(packet, record, here) {
                lemma_alias_kept(packet, alias);
            }
        }
        lemma_usable_records(packet, records, given, at + 1, after, (count - 1) as nat);
    }
}

/// A whole alias that fits is kept spelled out, and reads back.
proof fn lemma_alias_kept(packet: Seq<u8>, alias: Seq<u8>)
    requires
        NameModel::decode(packet, alias).complete,
        name::encode_labels(NameModel::decode(packet, alias).labels).len() < DNS_MAX_NAME_SIZE,
    ensures
        ({
            let decoded = NameModel::decode(packet, alias);
            &&& decoded.copied() == (names::spelled(decoded.labels), true)
            &&& NameModel::decode(packet, names::spelled(decoded.labels)) == decoded
        }),
{
    let decoded = NameModel::decode(packet, alias);
    law_alias_reads_back(packet, alias, packet);
    name::lemma_decoded_labels_valid(packet, alias);
    assert forall|i: int| 0 <= i < decoded.labels.len() implies 1 <= (
    #[trigger] decoded.labels[i]).len() <= 63 by {
        assert(name::valid_label(decoded.labels[i]));
    }
    names::lemma_headed(decoded.labels);
    names::law_copied_name(decoded.labels, -1);
}

/// A lookup is answered by the records of its name, and follows aliases: where
/// a response repeats the question and all its answer records can be read, the
/// query ends with the results in the records that belong to the name that
/// counts at their place, in their order and as many as it keeps, whatever
/// records of other names or of other kinds stand between them; where there is
/// no such result, the query fails.
///
/// Every alias is whole and fits into a name buffer, and every target is text
/// that can be kept.
pub proof fn law_answers_kept_in_order(
    query: QueryModel,
    pending: PendingModel,
    packet: Seq<u8>,
    rest: Seq<u8>,
    records: Seq<RecordModel>,
)
    requires
        query.state == StateModel::Pending(pending),
        repeats_question(packet, pending, rest),
        parsed_records(rest, HeaderModel::parse(packet).answer_record_count as nat) == Some(
            records,
        ),
        forall|i: int|
            0 <= i < records.len() ==> is_usable(
                packet,
                #[trigger] records[i],
                name_at(packet, records, NameModel::decode(packet, pending.name), i),
            ),
    ensures
        query.answered(packet) == QueryModel::ended(
            {
                let results = kept_results(
                    results_until(
                        packet,
                        records,
                        NameModel::decode(packet, pending.name),
                        records.len() as int,
                    ),
                );
                if results.len() == 0 {
                    StateModel::Failure(GetQueryResultError::Failed)
                } else {
                    StateModel::Completed(results)
                }
            },
        ),
        answer::read_answer(packet, pending.type_, pending.name).0 == bytes_at(
            packet,
            records,
            pending.name,
            records.len() as int,
        ),
{
    let count = HeaderModel::parse(packet).answer_record_count as nat;
    let name = NameModel::decode(packet, pending.name);
    lemma_parsed_count(rest, count);
    assert(records.skip(0) =~= records);
    assert(kept_results(results_until(packet, records, name, 0)) =~= Seq::empty());
    lemma_usable_records(packet, records, pending.name, 0, rest, count);
}

/// The first record of a response that is not usable decides: a service of the
/// name that counts, whose target cannot be kept, fails the query; anything
/// else, a record that cannot be read among it, ends the reading and leaves
/// the query pending, with nothing but its name changed: the query has moved
/// along the aliases before that record, and where the record is an alias
/// itself, to what could be copied of it.
pub proof fn law_unusable_record_decides(
    query: QueryModel,
    pending: PendingModel,
    packet: Seq<u8>,
    rest: Seq<u8>,
    records: Seq<RecordModel>,
)
    requires
        query.state == StateModel::Pending(pending),
        repeats_question(packet, pending, rest),
        records.len() < HeaderModel::parse(packet).answer_record_count,
        parsed_records(rest, records.len()) == Some(records),
        forall|i: int|
            0 <= i < records.len() ==> is_usable(
                packet,
                #[trigger] records[i],
                name_at(packet, records, NameModel::decode(packet, pending.name), i),
            ),
        RecordModel::parse(bytes_after(rest, records.len())) matches Some((next, _))
            ==> !is_usable(
            packet,
            next,
            name_at(
                packet,
                records,
                NameModel::decode(packet, pending.name),
                records.len() as int,
            ),
        ),
    ensures
        ({
            let name = name_at(
                packet,
                records,
                NameModel::decode(packet, pending.name),
                records.len() as int,
            );
            let (next, _) = RecordModel::parse(bytes_after(rest, records.len()))->0;
            if RecordModel::parse(bytes_after(rest, records.len())) is Some && next.data is Srv
                && belongs(packet, next, name) {
                let srv = next.data->Srv_0;
                query.answered(packet) == QueryModel::ended(
                    StateModel::Failure(
                        answer::target_text(NameModel::decode(packet, srv.target))->Err_0,
                    ),
                ) && answer::read_answer(packet, pending.type_, pending.name).0 == bytes_at(
                    packet,
                    records,
                    pending.name,
                    records.len() as int,
                )
            } else {
                &&& query.answered(packet).state matches StateModel::Pending(after)
                &&& query.answered(packet) == query.still(
                    PendingModel { name: after.name, ..pending },
                )
                &&& query.answered(packet).waker == query.waker
                &&& schedule::is_pending(
                    query.answered(packet),
                    PendingModel { name: after.name, ..pending },
                )
                &&& after.name == (match RecordModel::parse(bytes_after(rest, records.len())) {
                    Some((RecordModel { data: RecordDataModel::Cname(alias), .. }, _)) if belongs(
                        packet,
                        next,
                        name,
                    ) => NameModel::decode(packet, alias).copied().0,
                    _ => bytes_at(packet, records, pending.name, records.len() as int),
                })
            }
        }),
{
    let count = HeaderModel::parse(packet).answer_record_count as nat;
    let name = NameModel::decode(packet, pending.name);
    assert(records.skip(0) =~= records);
    assert(kept_results(results_until(packet, records, name, 0)) =~= Seq::empty());
    lemma_usable_records(packet, records, pending.name, 0, rest, count);
    if let Some((next, _)) = RecordModel::parse(bytes_after(rest, records.len())) {
        if let RecordDataModel::Cname(alias) = next.data {
            law_alias_reads_back(packet, alias, packet);
        }
    }
}

proof fn lemma_parsed_count(rest: Seq<u8>, count: nat)
    ensures
        parsed_records(rest, count) matches Some(records) ==> records.len() == count,
    decreases count,
{
    if count > 0 {
        if let Some((_, after)) = RecordModel::parse(rest) {
            lemma_parsed_count(after, (count - 1) as nat);
        }
    }
}

/// A query follows an alias: where a response repeats the question and holds
/// an alias of the name that is looked up, and then an address of the name
/// behind the alias, the query ends with that address.
pub proof fn law_alias_followed(
    query: QueryModel,
    pending: PendingModel,
    packet: Seq<u8>,
    rest: Seq<u8>,
    alias: RecordModel,
    address: RecordModel,
)
    requires
        query.state == StateModel::Pending(pending),
        repeats_question(packet, pending, rest),
        HeaderModel::parse(packet).answer_record_count == 2,
        parsed_records(rest, 2) == Some(seq![alias, address]),
        belongs(packet, alias, NameModel::decode(packet, pending.name)),
        alias.data matches RecordDataModel::Cname(target) && NameModel::decode(packet, target)
            == NameModel::decode(packet, address.name) && NameModel::decode(packet, target).complete
            && name::encode_labels(NameModel::decode(packet, target).labels).len()
            < DNS_MAX_NAME_SIZE,
        address.data is A || address.data is Aaaa,
    ensures
        query.answered(packet) == QueryModel::ended(
            StateModel::Completed(seq![result_of(packet, address.data)->0]),
        ),
{
    let records = seq![alias, address];
    let name = NameModel::decode(packet, pending.name);
    if let RecordDataModel::Cname(target) = alias.data {
        let behind = NameModel::decode(packet, target);
        law_compare_names(behind, behind);
        reveal_with_fuel(name_at, 3);
        reveal_with_fuel(results_until, 3);
        assert(name_at(packet, records, name, 1) == behind);
        assert forall|i: int| 0 <= i < records.len() implies is_usable(
            packet,
            #[trigger] records[i],
            name_at(packet, records, name, i),
        ) by {
            assert(i == 0 || i == 1);
        }
        law_answers_kept_in_order(query, pending, packet, rest, records);
        assert(results_until(packet, records, name, 2) =~= seq![
            result_of(packet, address.data)->0,
        ]);
    }
}

/// What reading records for a name finds does not depend on how the name is
/// written, and neither does where a query then stands, once it has moved.
proof fn lemma_reading_same_name(
    packet: Seq<u8>,
    rest: Seq<u8>,
    count: nat,
    name: Seq<u8>,
    other: Seq<u8>,
    results: Seq<ResultModel>,
)
    requires
        NameModel::decode(packet, name) == NameModel::decode(packet, other),
    ensures
        ({
            let one = answer::read_records(packet, rest, count, name, results);
            let two = answer::read_records(packet, rest, count, other, results);
            one.1 == two.1 && (one.0 == two.0 || (one.0 == name && two.0 == other))
        }),
    decreases count,
{
    if count > 0 {
        let left = (count - 1) as nat;
        if let Some((record, after)) = RecordModel::parse(rest) {
            lemma_reading_same_name(packet, after, left, name, other, results);
            if let Some(found) = result_of(packet, record.data) {
                lemma_reading_same_name(
                    packet,
                    after,
                    left,
                    name,
                    other,
                    answer::keep(results, found),
                );
            }
        }
    }
}

/// A message that is read twice says nothing new the second time.
proof fn lemma_answered_twice(query: QueryModel, packet: Seq<u8>)
    ensures
        query.answered(packet).answered(packet) == query.answered(packet),
{
    if let StateModel::Pending(pending) = query.state {
        let (moved, verdict) = answer::read_answer(packet, pending.type_, pending.name);
        if verdict is Ignored {
            if let Some((question, rest)) = QuestionModel::parse(packet.skip(HEADER_LEN as int)) {
                let asked = NameModel::decode(packet, question.name);
                let first = NameModel::decode(packet, pending.name);
                let second = NameModel::decode(packet, moved);
                law_compare_names(asked, first);
                law_compare_names(asked, second);
                if asked.compare(first) == Ok::<bool, Error>(true) && asked.compare(second) == Ok::<
                    bool,
                    Error,
                >(true) {
                    lemma_reading_same_name(
                        packet,
                        rest,
                        HeaderModel::parse(packet).answer_record_count as nat,
                        pending.name,
                        moved,
                        Seq::empty(),
                    );
                }
            }
        }
    }
}

/// A message that comes twice changes nothing the second time, where at most
/// one query waits for it.
pub proof fn law_message_twice(socket: SocketModel, dst_port: u16, packet: Seq<u8>)
    requires
        forall|i: int, j: int|
            0 <= i < socket.queries.len() && 0 <= j < socket.queries.len() && socket::is_awaiting(
                dst_port,
                HeaderModel::parse(packet).transaction_id,
            )(#[trigger] socket.queries[i]) && socket::is_awaiting(
                dst_port,
                HeaderModel::parse(packet).transaction_id,
            )(#[trigger] socket.queries[j]) ==> i == j,
    ensures
        socket.received(dst_port, packet).received(dst_port, packet) == socket.received(
            dst_port,
            packet,
        ),
{
    let awaiting = socket::is_awaiting(dst_port, HeaderModel::parse(packet).transaction_id);
    let once = socket.received(dst_port, packet);
    law_only_awaiting_queries_change(socket, dst_port, packet);
    socket::lemma_first_where_has(socket.queries, awaiting);
    let first = socket::first_where(socket.queries, awaiting);
    let nothing_new = SocketModel::is_response(packet) && HeaderModel::parse(packet).rcode
        != Rcode::NXDomain && first < socket.queries.len() && awaiting(once.queries[first]);
    if nothing_new {
        assert(awaiting(socket.queries[first]));
        assert forall|i: int| 0 <= i < first implies !awaiting(#[trigger] once.queries[i]) by {
            assert(once.queries[i] == socket.queries[i]);
        }
        socket::lemma_first_where(once.queries, awaiting, first);
        lemma_answered_twice(socket.queries[first]->0, packet);
        assert(once.received(dst_port, packet).queries =~= once.queries);
    } else {
        assert forall|i: int| 0 <= i < once.queries.len() && SocketModel::is_response(
            packet,
        ) implies !awaiting(#[trigger] once.queries[i]) by {
            if awaiting(socket.queries[i]) {
                assert(awaiting(socket.queries[first]));
                assert(i == first);
            }
        }
        law_unmatched_message_ignored(once, dst_port, packet);
    }
}

/// A message changes nothing but queries that wait for it: neither the servers
/// nor the hop limit, nor any slot whose query waits for another port or ID,
/// or for nothing any more.
pub proof fn law_only_awaiting_queries_change(socket: SocketModel, dst_port: u16, packet: Seq<u8>)
    ensures
        ({
            let after = socket.received(dst_port, packet);
            let txid = HeaderModel::parse(packet).transaction_id;
            &&& after == socket.with_queries(after.queries)
            &&& after.queries.len() == socket.queries.len()
            &&& forall|i: int|
                0 <= i < socket.queries.len() && !(socket.queries[i] matches Some(query)
                    && query.awaits(dst_port, txid)) ==> #[trigger] after.queries[i]
                    == socket.queries[i]
        }),
{
    let txid = HeaderModel::parse(packet).transaction_id;
    let awaiting = socket::is_awaiting(dst_port, txid);
    socket::lemma_first_where_has(socket.queries, awaiting);
    let first = socket::first_where(socket.queries, awaiting);
    if first < socket.queries.len() {
        assert(awaiting(socket.queries[first]));
    }
}

/// A message that is no response to a query, or for which no query waits,
/// changes nothing at all.
pub proof fn law_unmatched_message_ignored(socket: SocketModel, dst_port: u16, packet: Seq<u8>)
    requires
        !SocketModel::is_response(packet) || forall|i: int|
            0 <= i < socket.queries.len() ==> !(#[trigger] socket.queries[i] matches Some(query)
                && query.awaits(dst_port, HeaderModel::parse(packet).transaction_id)),
    ensures
        socket.received(dst_port, packet) == socket,
{
    law_only_awaiting_queries_change(socket, dst_port, packet);
    assert(socket.received(dst_port, packet).queries =~= socket.queries);
}

/// Where the server says that the name does not exist, a query that waits for
/// the message fails.
pub proof fn law_no_such_name_fails(socket: SocketModel, dst_port: u16, packet: Seq<u8>, at: int)
    requires
        SocketModel::is_response(packet),
        HeaderModel::parse(packet).rcode == Rcode::NXDomain,
        0 <= at < socket.queries.len(),
        socket.queries[at] matches Some(query) && query.awaits(
            dst_port,
            HeaderModel::parse(packet).transaction_id,
        ),
    ensures
        socket.received(dst_port, packet).queries[at] == Some(QueryModel::failed()),
{
}

/// A query that has ended stays as it is, whatever is received or dispatched,
/// until its result is fetched.
pub proof fn law_ended_query_stays(
    socket: SocketModel,
    at: int,
    dst_port: u16,
    packet: Seq<u8>,
    now: int,
)
    requires
        0 <= at < socket.queries.len(),
        socket.queries[at] matches Some(query) && !(query.state is Pending),
    ensures
        socket.received(dst_port, packet).queries[at] == socket.queries[at],
        socket.destination(at, now) is None,
        socket.passed_slot(at, now) == socket.queries[at],
{
    law_only_awaiting_queries_change(socket, dst_port, packet);
    assert(socket.received(dst_port, packet).queries[at] == socket.queries[at]);
}

/// A query keeps what it asks for and what its responses are matched by, as
/// long as it is pending: its name can only move along an alias in a response.
pub proof fn law_pending_query_keeps_its_question(
    query: QueryModel,
    servers: Seq<IpAddress>,
    now: int,
    packet: Seq<u8>,
)
    requires
        query.state is Pending,
    ensures
        ({
            let before = query.state->Pending_0;
            let prepared = query.prepared(servers, now);
            let answered = query.answered(packet);
            &&& prepared.state matches StateModel::Pending(after) ==> after.name == before.name
                && after.type_ == before.type_ && after.port == before.port && after.txid
                == before.txid && after.mdns == before.mdns && prepared.waker == query.waker
            &&& query.sent(now).state matches StateModel::Pending(after) && after.name
                == before.name && after.type_ == before.type_ && after.port == before.port
                && after.txid == before.txid && after.mdns == before.mdns
            &&& query.sent(now).waker == query.waker
            &&& answered.state matches StateModel::Pending(after) ==> after == (PendingModel {
                name: after.name,
                ..before
            }) && answered.waker == query.waker
        }),
{
}

proof fn lemma_taken_waker(
    before: Seq<Option<QueryModel>>,
    after: Seq<Option<QueryModel>>,
    at: int,
    waker: std::task::Waker,
)
    requires
        before.len() == after.len(),
        0 <= at < before.len(),
        before[at] matches Some(query) && query.waker == Some(waker),
        after[at] matches Some(next) && next.waker is None,
    ensures
        socket::taken_wakers(before, after).contains(waker),
    decreases before.len(),
{
    let taken = socket::taken_wakers(before.drop_last(), after.drop_last());
    let all = socket::taken_wakers(before, after);
    if at == before.len() - 1 {
        assert(all == taken.push(waker));
        assert(all[taken.len() as int] == waker);
    } else {
        lemma_taken_waker(before.drop_last(), after.drop_last(), at, waker);
        let k = choose|k: int| 0 <= k < taken.len() && taken[k] == waker;
        assert(all[k] == waker);
    }
}

proof fn lemma_taken_from(
    before: Seq<Option<QueryModel>>,
    after: Seq<Option<QueryModel>>,
    waker: std::task::Waker,
) -> (at: int)
    requires
        before.len() == after.len(),
        socket::taken_wakers(before, after).contains(waker),
    ensures
        0 <= at < before.len(),
        before[at] matches Some(query) && query.waker == Some(waker),
        after[at] matches Some(next) && next.waker is None,
    decreases before.len(),
{
    let taken = socket::taken_wakers(before.drop_last(), after.drop_last());
    let all = socket::taken_wakers(before, after);
    let k = choose|k: int| 0 <= k < all.len() && all[k] == waker;
    if k < taken.len() {
        assert(taken[k] == waker);
        lemma_taken_from(before.drop_last(), after.drop_last(), waker)
    } else {
        before.len() - 1
    }
}

/// Whether the query in a slot was pending, has ended, and had this waker.
pub open spec fn ended_with(
    before: Seq<Option<QueryModel>>,
    after: Seq<Option<QueryModel>>,
    at: int,
    waker: std::task::Waker,
) -> bool {
    &&& before[at] matches Some(query)
    &&& query.state is Pending
    &&& query.waker == Some(waker)
    &&& after[at] matches Some(next)
    &&& !(next.state is Pending)
}

/// Whether the waker of the query in a slot stays with it where the query is
/// still pending, and is taken to be woken where the query has ended; it is
/// woken where all wakers that were taken are.
pub open spec fn waker_follows_query(
    before: Seq<Option<QueryModel>>,
    after: Seq<Option<QueryModel>>,
    at: int,
    waker: std::task::Waker,
) -> bool {
    let taken = socket::taken_wakers(before, after);
    &&& after[at] matches Some(next)
    &&& next.state is Pending ==> next.waker == Some(waker)
    &&& !(next.state is Pending) ==> {
        &&& next.waker is None
        &&& taken.contains(waker)
        &&& socket::all_woken(taken) ==> socket::is_woken(waker)
    }
}

/// Whether every waker that was taken is that of a query that has ended.
pub open spec fn only_ended_taken(
    before: Seq<Option<QueryModel>>,
    after: Seq<Option<QueryModel>>,
) -> bool {
    forall|other: std::task::Waker| #[trigger]
        socket::taken_wakers(before, after).contains(other) ==> exists|i: int|
            0 <= i < after.len() && ended_with(before, after, i, other)
}

/// Where a query keeps its waker exactly as long as it is pending, its waker
/// follows it.
proof fn lemma_waker_follows(
    before: Seq<Option<QueryModel>>,
    after: Seq<Option<QueryModel>>,
    at: int,
    waker: std::task::Waker,
)
    requires
        before.len() == after.len(),
        0 <= at < before.len(),
        before[at] matches Some(query) && query.waker == Some(waker),
        after[at] matches Some(next) && next.waker == (if next.state is Pending {
            Some(waker)
        } else {
            None
        }),
    ensures
        waker_follows_query(before, after, at, waker),
{
    if !(after[at]->0.state is Pending) {
        lemma_taken_waker(before, after, at, waker);
        let taken = socket::taken_wakers(before, after);
        let k = choose|k: int| 0 <= k < taken.len() && taken[k] == waker;
        assert(socket::all_woken(taken) ==> socket::is_woken(taken[k]));
    }
}

/// A waker that was registered with a pending query stays with it as long as
/// the query is pending, and is taken from it and woken when a message ends the
/// query; no other waker is taken.
pub proof fn law_message_wakes_ended_queries(
    socket: SocketModel,
    dst_port: u16,
    packet: Seq<u8>,
    at: int,
    waker: std::task::Waker,
)
    requires
        0 <= at < socket.queries.len(),
        socket.queries[at] matches Some(query) && query.state is Pending && query.waker == Some(
            waker,
        ),
    ensures
        ({
            let after = socket.received(dst_port, packet).queries;
            &&& waker_follows_query(socket.queries, after, at, waker)
            &&& only_ended_taken(socket.queries, after)
        }),
{
    law_only_awaiting_queries_change(socket, dst_port, packet);
    let after = socket.received(dst_port, packet).queries;
    let awaiting = socket::is_awaiting(dst_port, HeaderModel::parse(packet).transaction_id);
    socket::lemma_first_where_has(socket.queries, awaiting);
    assert(after[at] is Some);
    lemma_waker_follows(socket.queries, after, at, waker);
    assert forall|other: std::task::Waker| #[trigger]
        socket::taken_wakers(socket.queries, after).contains(other) implies exists|i: int|
        0 <= i < after.len() && ended_with(socket.queries, after, i, other) by {
        let i = lemma_taken_from(socket.queries, after, other);
        assert(after[i] != socket.queries[i]);
        assert(ended_with(socket.queries, after, i, other));
    }
}

/// A waker that was registered with a pending query stays with it as long as
/// the query is pending, and is handed out to be woken when the search for a
/// request that is due ends the query; no other waker is handed out.
pub proof fn law_search_wakes_ended_queries<S: Fn(&IpAddress) -> Option<IpAddress>>(
    socket: SocketModel,
    after: SocketModel,
    now: int,
    source_address: S,
    request: Option<Request>,
    at: int,
    waker: std::task::Waker,
)
    requires
        after.queries.len() == socket.queries.len(),
        match request {
            None => socket.passed_over(after, now, source_address, socket.queries.len() as int),
            Some(request) => socket.ready(after, now, source_address, request),
        },
        0 <= at < socket.queries.len(),
        socket.queries[at] matches Some(query) && query.state is Pending && query.waker == Some(
            waker,
        ),
    ensures
        waker_follows_query(socket.queries, after.queries, at, waker),
        only_ended_taken(socket.queries, after.queries),
{
    assert(after.queries[at] is Some);
    lemma_waker_follows(socket.queries, after.queries, at, waker);
    assert forall|other: std::task::Waker| #[trigger]
        socket::taken_wakers(socket.queries, after.queries).contains(other) implies exists|i: int|
        0 <= i < after.queries.len() && ended_with(socket.queries, after.queries, i, other) by {
        let i = lemma_taken_from(socket.queries, after.queries, other);
        assert(ended_with(socket.queries, after.queries, i, other));
    }
}

/// A waker that was registered with a pending query stays with it as long as
/// the query is pending, and is taken from it and woken when a dispatch ends
/// the query; no other waker is taken.
pub proof fn law_dispatch_wakes_ended_queries<
    S: Fn(&IpAddress) -> Option<IpAddress>,
    F: FnOnce((IpRepr, UdpRepr, &[u8])) -> Result<(), E>,
    E,
>(
    socket: SocketModel,
    after: SocketModel,
    now: int,
    source_address: S,
    emit: F,
    r: Result<(), E>,
    sent_at: int,
    packet: (IpRepr, UdpRepr, &[u8]),
    at: int,
    waker: std::task::Waker,
)
    requires
        after.queries.len() == socket.queries.len(),
        socket.passed_over(after, now, source_address, socket.queries.len() as int)
            || socket.transmitted(after, now, source_address, emit, r, sent_at, packet),
        0 <= at < socket.queries.len(),
        socket.queries[at] matches Some(query) && query.state is Pending && query.waker == Some(
            waker,
        ),
    ensures
        waker_follows_query(socket.queries, after.queries, at, waker),
        only_ended_taken(socket.queries, after.queries),
{
    assert(after.queries[at] is Some);
    lemma_waker_follows(socket.queries, after.queries, at, waker);
    assert forall|other: std::task::Waker| #[trigger]
        socket::taken_wakers(socket.queries, after.queries).contains(other) implies exists|i: int|
        0 <= i < after.queries.len() && ended_with(socket.queries, after.queries, i, other) by {
        let i = lemma_taken_from(socket.queries, after.queries, other);
        assert(ended_with(socket.queries, after.queries, i, other));
    }
}

/// A query that is started takes a slot that was free or is new, and leaves
/// every other slot alone; canceling it leaves the slots as they were, or
/// with one more that is free.
pub proof fn law_cancel_undoes_start(
    socket: SocketModel,
    raw_name: Seq<u8>,
    type_: Type,
    ids: QueryIds,
    mdns: MulticastDns,
)
    ensures
        socket.started(raw_name, type_, ids, mdns) matches (after, Ok(at)) ==> {
            &&& 0 <= at < after.queries.len()
            &&& after.queries[at] == Some(QueryModel::fresh(raw_name, type_, ids, mdns))
            &&& at < socket.queries.len() ==> socket.queries[at] is None
                && after.queries.update(at, None) == socket.queries
            &&& at >= socket.queries.len() ==> at == socket.queries.len() && socket.growable
                && after.queries.update(at, None) == socket.queries.push(None)
            &&& forall|i: int|
                0 <= i < socket.queries.len() && i != at ==> after.queries[i] == socket.queries[i]
        },
{
    socket::lemma_first_where_has(socket.queries, socket::is_free());
    let at = socket::first_where(socket.queries, socket::is_free());
    if at < socket.queries.len() {
        assert(socket::is_free()(socket.queries[at]));
    }
    if let (after, Ok(_)) = socket.started(raw_name, type_, ids, mdns) {
        if at < socket.queries.len() {
            assert(after.queries.update(at, None) =~= socket.queries);
        } else {
            assert(after.queries.update(at, None) =~= socket.queries.push(None));
        }
    }
}

/// Starting a query for a name that is accepted fails only where every slot is
/// taken and none can be added, and it then changes nothing.
pub proof fn law_start_fails_only_without_room(
    socket: SocketModel,
    text: Seq<u8>,
    type_: Type,
    ids: QueryIds,
)
    requires
        name::wire_name(text) is Ok,
    ensures
        ({
            let (after, r) = socket.started_text(text, type_, ids);
            let full = !socket.growable && forall|i: int|
                0 <= i < socket.queries.len() ==> #[trigger] socket.queries[i] is Some;
            &&& r is Err <==> full
            &&& r matches Err(e) ==> e == StartQueryError::NoFreeSlot && after == socket
        }),
{
    lemma_wire_labels_encode(name::text_labels(text));
    socket::lemma_first_where_has(socket.queries, socket::is_free());
    let at = socket::first_where(socket.queries, socket::is_free());
    if at < socket.queries.len() {
        assert(socket::is_free()(socket.queries[at]));
        assert(socket.queries[at] is None);
    } else {
        assert forall|i: int| 0 <= i < socket.queries.len() implies #[trigger] socket.queries[i] is Some by {
            assert(!socket::is_free()(socket.queries[i]));
        }
    }
}

proof fn lemma_join_outcome(labels: Seq<Seq<u8>>)
    ensures
        match answer::join_labels(labels) {
            Ok(text) => text.len() <= DNS_MAX_TARGET_SIZE && vstd::utf8::valid_utf8(text),
            Err(e) => e != GetQueryResultError::Pending,
        },
    decreases labels.len(),
{
    if labels.len() == 0 {
        assert(vstd::utf8::valid_utf8(Seq::<u8>::empty()));
    } else {
        lemma_join_outcome(labels.drop_last());
        if let Ok(text) = answer::join_labels(labels.drop_last()) {
            if vstd::utf8::valid_utf8(labels.last()) {
                let dot = vstd::utf8::encode_utf8(seq!['.']);
                answer::lemma_dot_encoding();
                vstd::utf8::encode_utf8_valid_utf8(seq!['.']);
                vstd::utf8::valid_utf8_concat(text, dot);
                vstd::utf8::valid_utf8_concat(text + dot, labels.last());
                assert(text + dot =~= text.push(DOT));
            }
        }
    }
}

/// The target of an SRV answer is text, and no longer than what is kept of it.
pub proof fn law_target_is_text(target: NameModel)
    ensures
        match answer::target_text(target) {
            Ok(text) => text.len() <= DNS_MAX_TARGET_SIZE && vstd::utf8::valid_utf8(text),
            Err(e) => e != GetQueryResultError::Pending,
        },
{
    lemma_join_outcome(target.labels);
}

proof fn lemma_records_outcome(
    packet: Seq<u8>,
    rest: Seq<u8>,
    count: nat,
    name: Seq<u8>,
    results: Seq<ResultModel>,
)
    requires
        name.len() <= DNS_MAX_NAME_SIZE,
        results.len() <= DNS_MAX_RESULT_COUNT,
    ensures
        ({
            let (after, verdict) = answer::read_records(packet, rest, count, name, results);
            &&& after.len() <= DNS_MAX_NAME_SIZE
            &&& match verdict {
                VerdictModel::Ignored => true,
                VerdictModel::Failed(e) => e != GetQueryResultError::Pending,
                VerdictModel::Resolved(found) => 0 < found.len() <= DNS_MAX_RESULT_COUNT,
            }
        }),
    decreases count,
{
    if count > 0 {
        let left = (count - 1) as nat;
        if let Some((record, rest)) = RecordModel::parse(rest) {
            lemma_records_outcome(packet, rest, left, name, results);
            match record.data {
                RecordDataModel::A(address) => {
                    let found = ResultModel::Address(IpAddress::Ipv4(address));
                    lemma_records_outcome(
                        packet,
                        rest,
                        left,
                        name,
                        answer::keep(results, found),
                    );
                },
                RecordDataModel::Aaaa(address) => {
                    let found = ResultModel::Address(IpAddress::Ipv6(address));
                    lemma_records_outcome(
                        packet,
                        rest,
                        left,
                        name,
                        answer::keep(results, found),
                    );
                },
                RecordDataModel::Srv(srv) => {
                    let target = NameModel::decode(packet, srv.target);
                    law_target_is_text(target);
                    if let Ok(text) = answer::target_text(target) {
                        let found = ResultModel::Srv(
                            SrvRecord {
                                priority: srv.priority,
                                weight: srv.weight,
                                port: srv.port,
                                target: text,
                            },
                        );
                        lemma_records_outcome(
                            packet,
                            rest,
                            left,
                            name,
                            answer::keep(results, found),
                        );
                    }
                },
                RecordDataModel::Cname(alias) => {
                    let decoded = NameModel::decode(packet, alias);
                    lemma_fitting(decoded.labels, DNS_MAX_NAME_SIZE as nat);
                    lemma_records_outcome(packet, rest, left, decoded.copied().0, results);
                },
                RecordDataModel::Other(_, _) => {},
            }
        }
    }
}

/// A query stays valid whatever happens to it: its delay stays between one
/// second and ten, it asks no server beyond its list, a completed query has a
/// result, and no more of them than are kept.
pub proof fn law_query_stays_valid(
    query: QueryModel,
    servers: Seq<IpAddress>,
    now: int,
    packet: Seq<u8>,
)
    requires
        query.valid(),
        servers.len() <= DNS_MAX_SERVER_COUNT,
    ensures
        query.answered(packet).valid(),
        query.prepared(servers, now).valid(),
        query.sent(now).valid(),
        QueryModel::failed().valid(),
{
    if let StateModel::Pending(pending) = query.state {
        if let Some((_, rest)) = QuestionModel::parse(packet.skip(HEADER_LEN as int)) {
            lemma_records_outcome(
                packet,
                rest,
                HeaderModel::parse(packet).answer_record_count as nat,
                pending.name,
                Seq::empty(),
            );
        }
    }
}

/// A new socket whose slots are free is valid, however many servers it is
/// given; and so is one with queries, where they are.
pub proof fn law_new_socket_is_valid(
    servers: Seq<IpAddress>,
    queries: Seq<Option<QueryModel>>,
    growable: bool,
)
    requires
        forall|i: int|
            0 <= i < queries.len() ==> (#[trigger] queries[i] matches Some(query)
                ==> query.valid()),
    ensures
        (SocketModel {
            servers: socket::kept_servers(servers),
            queries,
            growable,
            hop_limit: None,
        }).valid(),
{
}

/// Before the first request of a pending query is due, no packet may be sent,
/// unless the time of the server that a query asks has run out: the next
/// server is then asked at once.
pub proof fn law_quiet_until_due<S: Fn(&IpAddress) -> Option<IpAddress>>(
    socket: SocketModel,
    now: int,
    source_address: S,
)
    requires
        forall|i: int|
            0 <= i < socket.queries.len() ==> (#[trigger] socket.due_at(i) matches Some(due)
                ==> now < due),
        forall|i: int|
            0 <= i < socket.queries.len() ==> !(#[trigger] socket.queries[i] matches Some(query)
                && query.state matches StateModel::Pending(pending) && pending.expired(now)),
    ensures
        forall|i: int|
            0 <= i < socket.queries.len() ==> #[trigger] socket.destination(i, now) is None,
        forall|at: int, packet: (IpRepr, UdpRepr, &[u8])|
            !(#[trigger] socket.may_send(now, source_address, at, packet)),
{
    assert forall|i: int| 0 <= i < socket.queries.len() implies #[trigger] socket.destination(
        i,
        now,
    ) is None by {
        assert(socket.due_at(i) matches Some(due) ==> now < due);
        if let Some(query) = socket.queries[i] {
            if let StateModel::Pending(pending) = query.state {
                assert(!pending.expired(now));
            }
        }
    }
}

/// Whether a server's source address is the same each time it is asked for.
pub open spec fn answers_alike<S: Fn(&IpAddress) -> Option<IpAddress>>(source_address: S) -> bool {
    forall|server: &IpAddress, a: Option<IpAddress>, b: Option<IpAddress>|
        #![trigger call_ensures(source_address, (server,), a), call_ensures(source_address, (server,), b)]
        call_ensures(source_address, (server,), a) && call_ensures(source_address, (server,), b)
            ==> a == b
}

/// A dispatch sends at most what one query owes: only one packet may be sent,
/// for one slot, where there is one source address for each server.
pub proof fn law_one_packet_may_be_sent<S: Fn(&IpAddress) -> Option<IpAddress>>(
    socket: SocketModel,
    now: int,
    source_address: S,
    at: int,
    packet: (IpRepr, UdpRepr, &[u8]),
    other_at: int,
    other: (IpRepr, UdpRepr, &[u8]),
)
    requires
        socket.may_send(now, source_address, at, packet),
        socket.may_send(now, source_address, other_at, other),
        answers_alike(source_address),
    ensures
        at == other_at,
        packet.0 == other.0,
        packet.1 == other.1,
        packet.2@ == other.2@,
{
    assert(socket.destination(at, now) is Some);
    assert(socket.destination(other_at, now) is Some);
}

/// Where a query owes a request and its server always has a source address, a
/// dispatch hands out a request: that one, or one of a slot before it.
pub proof fn law_owed_request_goes_out<
    S: Fn(&IpAddress) -> Option<IpAddress>,
    F: FnOnce((IpRepr, UdpRepr, &[u8])) -> Result<(), E>,
    E,
>(
    socket: SocketModel,
    after: SocketModel,
    now: int,
    source_address: S,
    emit: F,
    r: Result<(), E>,
    sent_at: int,
    packet: (IpRepr, UdpRepr, &[u8]),
    at: int,
)
    requires
        0 <= at < socket.queries.len(),
        socket.destination(at, now) matches Some(server) && !call_ensures(
            source_address,
            (&server,),
            None,
        ),
        socket.passed_over(after, now, source_address, socket.queries.len() as int)
            || socket.transmitted(after, now, source_address, emit, r, sent_at, packet),
    ensures
        socket.transmitted(after, now, source_address, emit, r, sent_at, packet),
        sent_at <= at,
        socket.may_send(now, source_address, sent_at, packet),
{
    if socket.passed_over(after, now, source_address, socket.queries.len() as int) || at < sent_at {
        assert(after.queries[at] == socket.passed_slot(at, now));
    }
    assert forall|i: int| 0 <= i < sent_at && sent_at <= at implies (#[trigger] socket.destination(
        i,
        now,
    ) matches Some(server) ==> call_ensures(source_address, (&server,), None)) by {
        assert(after.queries[i] == socket.passed_slot(i, now));
    }
}

/// A query that was looked at is the same after another look at the same time,
/// and owes the same.
proof fn lemma_looked_at_twice(query: QueryModel, servers: Seq<IpAddress>, now: int)
    ensures
        query.prepared(servers, now).prepared(servers, now) == query.prepared(servers, now),
        query.prepared(servers, now).destination(servers, now) == query.destination(servers, now),
{
    if let StateModel::Pending(pending) = query.state {
        assert(pending.clocked(now).clocked(now) == pending.clocked(now));
    }
}

/// A request that could not be sent is not counted as sent: its query still
/// owes it, and the next dispatch at the same time hands out the very same
/// packet, where there is one source address for each server.
pub proof fn law_failed_send_is_repeated<
    S: Fn(&IpAddress) -> Option<IpAddress>,
    F: FnOnce((IpRepr, UdpRepr, &[u8])) -> Result<(), E>,
    G: FnOnce((IpRepr, UdpRepr, &[u8])) -> Result<(), E>,
    E,
>(
    socket: SocketModel,
    after: SocketModel,
    last: SocketModel,
    now: int,
    source_address: S,
    emit: F,
    r: Result<(), E>,
    at: int,
    packet: (IpRepr, UdpRepr, &[u8]),
    emit_again: G,
    r_again: Result<(), E>,
    at_again: int,
    packet_again: (IpRepr, UdpRepr, &[u8]),
)
    requires
        after == socket.with_queries(after.queries),
        after.queries.len() == socket.queries.len(),
        socket.transmitted(after, now, source_address, emit, r, at, packet),
        r is Err,
        after.passed_over(last, now, source_address, after.queries.len() as int)
            || after.transmitted(
            last,
            now,
            source_address,
            emit_again,
            r_again,
            at_again,
            packet_again,
        ),
        answers_alike(source_address),
    ensures
        after.queries[at] == Some(socket.queries[at]->0.prepared(socket.servers, now)),
        after.destination(at, now) == socket.destination(at, now),
        after.transmitted(
            last,
            now,
            source_address,
            emit_again,
            r_again,
            at_again,
            packet_again,
        ),
        at_again == at,
        packet_again.0 == packet.0,
        packet_again.1 == packet.1,
        packet_again.2@ == packet.2@,
{
    let query = socket.queries[at]->0;
    lemma_looked_at_twice(query, socket.servers, now);
    let server = socket.destination(at, now)->0;
    assert(call_ensures(source_address, (&server,), Some(packet.0.src_addr)));
    assert forall|i: int| 0 <= i < at implies #[trigger] after.destination(i, now) is None by {
        assert(after.queries[i] == socket.passed_slot(i, now));
        if let Some(other) = socket.queries[i] {
            lemma_looked_at_twice(other, socket.servers, now);
        }
    }
    if after.passed_over(last, now, source_address, after.queries.len() as int) || at < at_again {
        assert(last.queries[at] == after.passed_slot(at, now));
    }
    assert(after.destination(at_again, now) is Some);
}

/// When the request of a pending query is due, the query owes it to a server
/// at the next look, or fails for want of one.
pub proof fn law_due_query_is_owed(
    query: QueryModel,
    pending: PendingModel,
    servers: Seq<IpAddress>,
    now: int,
)
    requires
        query.state == StateModel::Pending(pending),
        0 <= now,
        pending.retransmit_at <= now,
    ensures
        query.destination(servers, now) is Some || query.prepared(servers, now)
            == QueryModel::failed(),
{
}

/// A query that has just been started owes a request at once, to its first
/// server.
pub proof fn law_fresh_query_is_due(
    name: Seq<u8>,
    type_: Type,
    ids: QueryIds,
    mdns: MulticastDns,
    servers: Seq<IpAddress>,
    now: int,
)
    requires
        now >= 0,
        mdns == MulticastDns::Disabled ==> servers.len() > 0 && !servers[0].is_unspecified(),
    ensures
        QueryModel::fresh(name, type_, ids, mdns).destination(servers, now) == Some(
            match mdns {
                MulticastDns::Enabled => query::mdns_servers()[0],
                MulticastDns::Disabled => servers[0],
            },
        ),
{
}

/// A query for a name whose last label is `local` is asked of the multicast
/// groups, at their port; any other is asked of the servers, at theirs.
pub proof fn law_local_names_are_multicast(
    socket: SocketModel,
    text: Seq<u8>,
    type_: Type,
    ids: QueryIds,
    servers: Seq<IpAddress>,
    now: int,
)
    ensures
        socket.started_text(text, type_, ids) matches (after, Ok(at)) ==> {
            &&& 0 <= at < after.queries.len()
            &&& after.queries[at] matches Some(started)
            &&& started.state matches StateModel::Pending(pending)
            &&& name::wire_name(text) == Ok::<Seq<u8>, StartQueryError>(pending.name)
            &&& pending.dst_port() == (if name::is_local(text) {
                MDNS_DNS_PORT
            } else {
                DNS_PORT
            })
            &&& started.destination(servers, now) matches Some(server) ==> if name::is_local(text) {
                query::mdns_servers().contains(server)
            } else {
                servers.contains(server)
            }
        },
{
    socket::lemma_first_where_has(socket.queries, socket::is_free());
}

/// A query whose server's time has run out asks its next server, from the
/// shortest delay on, or fails where none is left.
pub proof fn law_next_server_after_timeout(
    query: QueryModel,
    pending: PendingModel,
    servers: Seq<IpAddress>,
    now: int,
)
    requires
        query.state == StateModel::Pending(pending),
        pending.expired(now),
        pending.server_idx >= 0,
        now >= 0,
    ensures
        ({
            let own = pending.own_servers(servers);
            let next = pending.server_idx + 1;
            if next < own.len() && !own[next].is_unspecified() {
                query.destination(servers, now) == Some(own[next]) && query.prepared(servers, now)
                    == query.still(
                    PendingModel {
                        server_idx: next,
                        timeout_at: Some(now + RETRANSMIT_TIMEOUT),
                        retransmit_at: 0,
                        delay: RETRANSMIT_DELAY as int,
                        ..pending
                    },
                )
            } else {
                query.destination(servers, now) is None && query.prepared(servers, now)
                    == QueryModel::failed()
            }
        }),
{
}

/// A query after a string of looks at the clock.
pub open spec fn looked_at(query: QueryModel, servers: Seq<IpAddress>, times: Seq<int>) -> QueryModel
    decreases times.len(),
{
    if times.len() == 0 {
        query
    } else {
        looked_at(query, servers, times.drop_last()).prepared(servers, times.last())
    }
}

/// A query to which no server answers in time does not go on forever: each
/// time that runs out takes it one server further, and it fails at the latest
/// when the times of all its servers have run out.
pub proof fn law_query_gives_up(
    query: QueryModel,
    pending: PendingModel,
    servers: Seq<IpAddress>,
    times: Seq<int>,
)
    requires
        query.state == StateModel::Pending(pending),
        pending.server_idx >= 0,
        forall|k: int|
            0 <= k < times.len() ==> (looked_at(query, servers, #[trigger] times.take(k)).state matches StateModel::Pending(
                p,
            ) ==> p.expired(times[k])),
    ensures
        looked_at(query, servers, times).state is Pending || looked_at(query, servers, times)
            == QueryModel::failed(),
        looked_at(query, servers, times).state matches StateModel::Pending(p) ==> p.server_idx
            == pending.server_idx + times.len() && p.mdns == pending.mdns,
        times.len() > 0 && pending.server_idx + times.len() >= pending.own_servers(servers).len()
            ==> looked_at(query, servers, times) == QueryModel::failed(),
    decreases times.len(),
{
    if times.len() > 0 {
        let before = times.drop_last();
        assert forall|k: int| 0 <= k < before.len() implies (looked_at(
            query,
            servers,
            #[trigger] before.take(k),
        ).state matches StateModel::Pending(p) ==> p.expired(before[k])) by {
            assert(before.take(k) =~= times.take(k));
        }
        law_query_gives_up(query, pending, servers, before);
        assert(times.take(times.len() - 1) =~= before);
        let last = looked_at(query, servers, before);
        if let StateModel::Pending(p) = last.state {
            assert(p.expired(times.last()));
        }
    }
}

/// A pending query after a string of requests.
pub open spec fn resent(pending: PendingModel, times: Seq<int>) -> PendingModel
    decreases times.len(),
{
    if times.len() == 0 {
        pending
    } else {
        resent(pending, times.drop_last()).sent(times.last())
    }
}

/// The delay from a request to the next doubles with each request, up to ten
/// seconds, and the next request is due that much later.
pub proof fn law_delay_doubles(pending: PendingModel, times: Seq<int>, now: int)
    requires
        pending.delay == RETRANSMIT_DELAY,
    ensures
        ({
            let doubled = RETRANSMIT_DELAY * vstd::arithmetic::power2::pow2(times.len());
            let delay = if doubled <= MAX_RETRANSMIT_DELAY {
                doubled
            } else {
                MAX_RETRANSMIT_DELAY as int
            };
            resent(pending, times).delay == delay && resent(pending, times.push(now)).retransmit_at
                == now + delay
        }),
    decreases times.len(),
{
    assert(times.push(now).drop_last() =~= times);
    if times.len() == 0 {
        vstd::arithmetic::power2::lemma2_to64();
    } else {
        law_delay_doubles(pending, times.drop_last(), times.last());
        vstd::arithmetic::power2::lemma_pow2_unfold(times.len());
    }
}

} // verus!
