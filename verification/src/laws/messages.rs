//! What the bytes of a message say.

use vstd::prelude::*;

use crate::answer;
use crate::answer::{Verdict, VerdictModel};
use crate::error::GetQueryResultError;
use crate::ip;
use crate::ip::{IpAddress, Ipv4Address, Ipv6Address};
use crate::laws::names;
use crate::name;
use crate::name::NameModel;
use crate::query::PendingModel;
use crate::result::{QueryResult, ResultModel, SrvRecord};
use crate::storage;
use crate::wire;
use crate::wire::{
    HeaderModel, Opcode, Question, QuestionModel, Rcode, Record, RecordData, RecordDataModel,
    RecordModel, Type,
};

verus! {

/// The 16-bit number that two bytes stand for.
pub open spec fn number(high: u8, low: u8) -> int {
    high * 256 + low
}

/// The two bytes of a 16-bit number.
pub open spec fn two_bytes(value: u16) -> Seq<u8> {
    seq![(value / 256) as u8, (value % 256) as u8]
}

/// The header of a message stands in its first twelve bytes: the ID, the flags
/// with the opcode and the response code, and the counts of questions and
/// answers, each the more significant byte first.
pub proof fn law_header_bytes(packet: Seq<u8>)
    requires
        packet.len() >= 12,
    ensures
        ({
            let header = HeaderModel::parse(packet);
            &&& header.transaction_id == number(packet[0], packet[1])
            &&& header.response <==> packet[2] >= 128
            &&& header.opcode == Opcode::Query <==> packet[2] % 128 < 8
            &&& header.opcode == Opcode::Status <==> 16 <= packet[2] % 128 < 24
            &&& header.opcode == Opcode::from_code((packet[2] % 128 / 8) as u8)
            &&& header.rcode == Rcode::NoError <==> packet[3] % 16 == 0
            &&& header.rcode == Rcode::NXDomain <==> packet[3] % 16 == 3
            &&& header.rcode == Rcode::from_code((packet[3] % 16) as u8)
            &&& header.question_count == number(packet[4], packet[5])
            &&& header.answer_record_count == number(packet[6], packet[7])
        }),
{
    let flags = wire::be16(packet, 2);
    assert(flags == packet[2] * 256 + packet[3]);
    assert(flags % 16 == packet[3] % 16);
    assert(flags / 0x800 == packet[2] / 8);
    assert(packet[2] / 8 % 16 == (packet[2] % 128) / 8);
}

/// Numbers stand for what they do on the wire, and no two for the same.
pub proof fn law_codes(code: u16, other: u16)
    ensures
        Type::A.code() == 1,
        Type::Ns.code() == 2,
        Type::Cname.code() == 5,
        Type::Soa.code() == 6,
        Type::Aaaa.code() == 28,
        Type::Srv.code() == 33,
        Type::Unknown(code).code() == code,
        Type::from_code(code).code() == code,
        Type::from_code(code) is Unknown <==> !(code == 1 || code == 2 || code == 5 || code == 6
            || code == 28 || code == 33),
        Type::from_code(code) == Type::from_code(other) ==> code == other,
        code < 256 && other < 256 && Rcode::from_code(code as u8) == Rcode::from_code(other as u8)
            ==> code == other,
        code < 256 ==> (Rcode::from_code(code as u8) is Unknown <==> code > 10),
        Rcode::from_code(0) == Rcode::NoError,
        Rcode::from_code(1) == Rcode::FormErr,
        Rcode::from_code(2) == Rcode::ServFail,
        Rcode::from_code(3) == Rcode::NXDomain,
        Rcode::from_code(4) == Rcode::NotImp,
        Rcode::from_code(5) == Rcode::Refused,
        Rcode::from_code(6) == Rcode::YXDomain,
        Rcode::from_code(7) == Rcode::YXRRSet,
        Rcode::from_code(8) == Rcode::NXRRSet,
        Rcode::from_code(9) == Rcode::NotAuth,
        Rcode::from_code(10) == Rcode::NotZone,
        code < 256 && other < 256 && Opcode::from_code(code as u8) == Opcode::from_code(other as u8)
            ==> code == other,
        Opcode::from_code(0) == Opcode::Query,
        Opcode::from_code(2) == Opcode::Status,
        code < 256 ==> (Opcode::from_code(code as u8) is Unknown <==> code != 0 && code != 2),
{
}

/// The number that four octets spell, the first the most significant one.
pub open spec fn four_octets(data: Seq<u8>) -> int {
    data[0] * 0x100_0000 + data[1] * 0x1_0000 + data[2] * 0x100 + data[3]
}

/// The number that sixteen octets spell, the first the most significant one.
pub open spec fn sixteen_octets(data: Seq<u8>) -> int {
    ((four_octets(data) * 0x1_0000_0000 + four_octets(data.skip(4))) * 0x1_0000_0000 + four_octets(
        data.skip(8),
    )) * 0x1_0000_0000 + four_octets(data.skip(12))
}

/// A string of octets spells a number, the first octet the most significant
/// one.
pub proof fn law_octets(data: Seq<u8>)
    ensures
        data.len() == 4 ==> ip::big_endian(data) == four_octets(data),
        data.len() == 16 ==> ip::big_endian(data) == sixteen_octets(data),
        data.len() == 16 ==> 0 <= sixteen_octets(data) <= u128::MAX,
{
    if data.len() == 4 {
        lemma_last_octets(data, 4);
        lemma_last_octets(data, 2);
    }
    if data.len() == 16 {
        lemma_last_octets(data, 16);
        lemma_last_octets(data, 14);
        lemma_last_octets(data, 12);
        lemma_last_octets(data, 10);
        lemma_last_octets(data, 8);
        lemma_last_octets(data, 6);
        lemma_last_octets(data, 4);
        lemma_last_octets(data, 2);
    }
}

proof fn lemma_last_octets(data: Seq<u8>, end: int)
    requires
        2 <= end <= data.len(),
    ensures
        ip::big_endian(data.take(end)) == ip::big_endian(data.take(end - 2)) * 0x1_0000 + number(
            data[end - 2],
            data[end - 1],
        ),
        end == 2 ==> ip::big_endian(data.take(end - 2)) == 0,
        end == data.len() ==> data.take(end) == data,
{
    reveal_with_fuel(ip::big_endian, 3);
    assert(data.take(end).drop_last() =~= data.take(end - 1));
    assert(data.take(end - 1).drop_last() =~= data.take(end - 2));
    assert(end == data.len() ==> data.take(end) =~= data);
}

/// What the data of a record holds depends on the number of its type: an IPv4
/// address of 4 bytes under 1, an IPv6 address of 16 bytes under 28, an alias
/// under 5, a service under 33, and just bytes under any other.
pub proof fn law_record_data(code: u16, data: Seq<u8>)
    ensures
        ({
            let parsed = RecordDataModel::parse(Type::from_code(code), data);
            if code == 1 {
                &&& parsed is Some <==> data.len() == 4
                &&& data.len() == 4 ==> (parsed matches Some(RecordDataModel::A(address))
                    && address.bits == four_octets(data))
            } else if code == 28 {
                &&& parsed is Some <==> data.len() == 16
                &&& data.len() == 16 ==> (parsed matches Some(RecordDataModel::Aaaa(address))
                    && address.bits == sixteen_octets(data))
            } else if code == 33 {
                &&& parsed is Some <==> data.len() >= 6
                &&& data.len() >= 6 ==> (parsed matches Some(RecordDataModel::Srv(srv))
                    && srv.priority == number(data[0], data[1]) && srv.weight == number(
                    data[2],
                    data[3],
                ) && srv.port == number(data[4], data[5]) && data == data.take(6) + srv.target)
            } else if code == 5 {
                parsed == Some(RecordDataModel::Cname(data))
            } else {
                parsed matches Some(RecordDataModel::Other(type_, bytes)) && type_.code() == code
                    && bytes == data
            }
        }),
{
    law_octets(data);
    if code == 33 && data.len() >= 6 {
        assert(data =~= data.take(6) + data.skip(6));
    }
}

/// The end of a name: a zero, or a pointer.
pub open spec fn is_name_end(end: Seq<u8>) -> bool {
    end == seq![0u8] || end.len() == 2 && end[0] >= 192
}

/// A question is a name, the number of a type, and the class of the Internet,
/// and is written and read as such, whatever follows.
pub proof fn law_question_bytes(
    head: Seq<Seq<u8>>,
    end: Seq<u8>,
    type_: Type,
    tail: Seq<u8>,
)
    requires
        names::all_short(head),
        is_name_end(end),
    ensures
        ({
            let name = names::headed(head) + end;
            let bytes = name + two_bytes(type_.code()) + seq![0u8, 1u8];
            &&& (QuestionModel { name, type_ }).emit() == bytes
            &&& QuestionModel::parse(bytes + tail) == Some(
                (QuestionModel { name, type_: Type::from_code(type_.code()) }, tail),
            )
        }),
{
    let name = names::headed(head) + end;
    let bytes = name + two_bytes(type_.code()) + seq![0u8, 1u8];
    let all = bytes + tail;
    let n = name.len() as int;
    assert((QuestionModel { name, type_ }).emit() =~= bytes);
    names::law_name_measured(head, end, two_bytes(type_.code()) + seq![0u8, 1u8] + tail);
    assert(all =~= name + (two_bytes(type_.code()) + seq![0u8, 1u8] + tail));
    assert(wire::be16(all, n) == type_.code()) by {
        assert(all[n] == two_bytes(type_.code())[0]);
        assert(all[n + 1] == two_bytes(type_.code())[1]);
    }
    assert(all[n + 2] == 0 && all[n + 3] == 1);
    assert(all.take(n) =~= name);
    assert(all.skip(n + 4) =~= tail);
}

/// Bytes that are read as a question are a name, two bytes that give its type,
/// the class of the Internet, and the bytes that are left.
pub proof fn law_question_is_in_bytes(bytes: Seq<u8>) -> (r: (Seq<Seq<u8>>, Seq<u8>))
    requires
        QuestionModel::parse(bytes) is Some,
    ensures
        names::all_short(r.0),
        is_name_end(r.1),
        ({
            let (question, rest) = QuestionModel::parse(bytes)->0;
            &&& question.name == names::headed(r.0) + r.1
            &&& bytes == question.name + two_bytes(question.type_.code()) + seq![0u8, 1u8] + rest
        }),
{
    let (question, rest) = QuestionModel::parse(bytes)->0;
    let r = names::law_measured_name_ends(bytes);
    let n = question.name.len() as int;
    assert(question.name =~= bytes.take(n));
    let code = wire::be16(bytes, n);
    law_codes(code, 0);
    assert(two_bytes(code) =~= seq![bytes[n], bytes[n + 1]]);
    assert(bytes =~= question.name + two_bytes(question.type_.code()) + seq![0u8, 1u8] + rest);
    r
}

/// A record in wire format: the name that it belongs to, the number of its
/// type, the class of the Internet, how long it may be kept, and its data
/// behind the length of the data.
pub open spec fn record_bytes(name: Seq<u8>, code: u16, ttl: Seq<u8>, data: Seq<u8>) -> Seq<u8> {
    name + two_bytes(code) + seq![0u8, 1u8] + ttl + two_bytes(data.len() as u16) + data
}

/// A record is read as what it was written from, whatever follows it.
pub proof fn law_record_bytes(
    head: Seq<Seq<u8>>,
    end: Seq<u8>,
    code: u16,
    ttl: Seq<u8>,
    data: Seq<u8>,
    tail: Seq<u8>,
)
    requires
        names::all_short(head),
        is_name_end(end),
        ttl.len() == 4,
        data.len() < 0x1_0000,
    ensures
        ({
            let name = names::headed(head) + end;
            let read = RecordModel::parse(record_bytes(name, code, ttl, data) + tail);
            match RecordDataModel::parse(Type::from_code(code), data) {
                None => read is None,
                Some(parsed) => read matches Some((record, rest)) && record.name == name
                    && record.ttl == four_octets(ttl) && record.data == parsed && rest == tail,
            }
        }),
{
    let name = names::headed(head) + end;
    let all = record_bytes(name, code, ttl, data) + tail;
    let n = name.len() as int;
    let len = data.len() as u16;
    let after = two_bytes(code) + seq![0u8, 1u8] + ttl + two_bytes(len) + data + tail;
    names::law_name_measured(head, end, after);
    assert(all =~= name + after);
    assert(wire::be16(all, n) == code) by {
        assert(all[n] == two_bytes(code)[0]);
        assert(all[n + 1] == two_bytes(code)[1]);
    }
    assert(all[n + 2] == 0 && all[n + 3] == 1);
    assert(wire::be16(all, n + 8) == len) by {
        assert(all[n + 8] == two_bytes(len)[0]);
        assert(all[n + 9] == two_bytes(len)[1]);
    }
    assert(all.take(n) =~= name);
    assert(all.subrange(n + 4, n + 8) =~= ttl);
    assert(all.subrange(n + 10, n + 10 + len) =~= data);
    assert(all.skip(n + 10 + len) =~= tail);
    law_octets(ttl);
}

/// Bytes that are read as a record are one in wire format, and the bytes that
/// are left.
pub proof fn law_record_is_in_bytes(bytes: Seq<u8>) -> (r: (
    Seq<Seq<u8>>,
    Seq<u8>,
    u16,
    Seq<u8>,
    Seq<u8>,
))
    requires
        RecordModel::parse(bytes) is Some,
    ensures
        names::all_short(r.0),
        is_name_end(r.1),
        r.3.len() == 4,
        r.4.len() < 0x1_0000,
        ({
            let (record, rest) = RecordModel::parse(bytes)->0;
            &&& record.name == names::headed(r.0) + r.1
            &&& RecordDataModel::parse(Type::from_code(r.2), r.4) == Some(record.data)
            &&& bytes == record_bytes(record.name, r.2, r.3, r.4) + rest
        }),
{
    let (record, rest) = RecordModel::parse(bytes)->0;
    let (head, end) = names::law_measured_name_ends(bytes);
    let n = record.name.len() as int;
    assert(record.name =~= bytes.take(n));
    let code = wire::be16(bytes, n);
    let len = wire::be16(bytes, n + 8);
    let ttl = bytes.subrange(n + 4, n + 8);
    let data = bytes.subrange(n + 10, n + 10 + len);
    assert(two_bytes(code) =~= seq![bytes[n], bytes[n + 1]]);
    assert(two_bytes(len) =~= seq![bytes[n + 8], bytes[n + 9]]);
    assert(bytes[n + 2] * 256 + bytes[n + 3] == 1);
    assert(bytes =~= record_bytes(record.name, code, ttl, data) + rest);
    (head, end, code, ttl, data)
}

/// The request of a query is a header with its ID, the flag that asks for
/// recursion and one question, and then its name, the number of its type and
/// the class of the Internet.
pub proof fn law_request_bytes(pending: PendingModel)
    ensures
        pending.request() == two_bytes(pending.txid) + seq![1u8, 0, 0, 1, 0, 0, 0, 0, 0, 0]
            + pending.name + two_bytes(pending.type_.code()) + seq![0u8, 1u8],
{
    assert(wire::be16_bytes(0x0100) =~= seq![1u8, 0u8]);
    assert(pending.request() =~= two_bytes(pending.txid) + seq![1u8, 0, 0, 1, 0, 0, 0, 0, 0, 0]
        + pending.name + two_bytes(pending.type_.code()) + seq![0u8, 1u8]);
}

/// A message with other flags is the same but for these.
pub proof fn law_query_message_bytes(txid: u16, flags: u16, question: QuestionModel)
    ensures
        wire::query_message(txid, flags, question) == two_bytes(txid) + two_bytes(flags) + seq![
            0u8,
            1,
            0,
            0,
            0,
            0,
            0,
            0,
        ] + question.name + two_bytes(question.type_.code()) + seq![0u8, 1u8],
{
    assert(wire::query_message(txid, flags, question) =~= two_bytes(txid) + two_bytes(flags)
        + seq![0u8, 1, 0, 0, 0, 0, 0, 0] + question.name + two_bytes(question.type_.code())
        + seq![0u8, 1u8]);
}

/// Whether every label is text.
pub open spec fn all_text(labels: Seq<Seq<u8>>) -> bool {
    forall|i: int| 0 <= i < labels.len() ==> vstd::utf8::valid_utf8(#[trigger] labels[i])
}

proof fn lemma_join_is_dotted(labels: Seq<Seq<u8>>)
    requires
        all_text(labels),
    ensures
        answer::join_labels(labels) == (if names::dotted(labels).len() <= 253 {
            Ok::<Seq<u8>, GetQueryResultError>(names::dotted(labels))
        } else {
            Err(GetQueryResultError::SrvTargetTooLong)
        }),
    decreases labels.len(),
{
    if labels.len() > 0 {
        let before = labels.drop_last();
        assert forall|i: int| 0 <= i < before.len() implies vstd::utf8::valid_utf8(
            #[trigger] before[i],
        ) by {
            assert(before[i] == labels[i]);
        }
        lemma_join_is_dotted(before);
        assert(vstd::utf8::valid_utf8(labels[labels.len() - 1]));
        assert(before.push(labels.last()) =~= labels);
        if before.len() > 0 {
            names::lemma_dotted_push(before, labels.last());
            assert(names::dotted(before).push(0x2e) + labels.last() =~= names::dotted(labels));
        }
    }
}

proof fn lemma_join_fails_at(labels: Seq<Seq<u8>>, bad: int)
    requires
        0 <= bad < labels.len(),
        all_text(labels.take(bad)),
        !vstd::utf8::valid_utf8(labels[bad]),
    ensures
        answer::join_labels(labels) == Err::<Seq<u8>, GetQueryResultError>(
            if names::dotted(labels.take(bad)).len() <= 253 {
                GetQueryResultError::Failed
            } else {
                GetQueryResultError::SrvTargetTooLong
            },
        ),
    decreases labels.len(),
{
    let before = labels.drop_last();
    if bad < labels.len() - 1 {
        assert(before.take(bad) =~= labels.take(bad));
        lemma_join_fails_at(before, bad);
    } else {
        assert(before =~= labels.take(bad));
        lemma_join_is_dotted(before);
    }
}

/// The target of a service, where its labels are text, is these labels joined
/// with dots; it is kept exactly where that takes no more than 253 bytes and
/// the name is whole.
pub proof fn law_target_is_dotted(labels: Seq<Seq<u8>>)
    requires
        all_text(labels),
    ensures
        answer::target_text(NameModel { labels, complete: true }) == (if names::dotted(labels).len()
            <= 253 {
            Ok::<Seq<u8>, GetQueryResultError>(names::dotted(labels))
        } else {
            Err(GetQueryResultError::SrvTargetTooLong)
        }),
        answer::target_text(NameModel { labels, complete: false }) == Err::<
            Seq<u8>,
            GetQueryResultError,
        >(
            if names::dotted(labels).len() <= 253 {
                GetQueryResultError::Failed
            } else {
                GetQueryResultError::SrvTargetTooLong
            },
        ),
{
    lemma_join_is_dotted(labels);
}

/// The labels of a target can be had back from its text, by splitting it at
/// its dots, where no label has a dot in it.
pub proof fn law_target_splits_back(labels: Seq<Seq<u8>>)
    requires
        labels.len() > 0,
        all_text(labels),
        names::have_no_dot(labels),
        names::dotted(labels).len() <= 253,
    ensures
        answer::target_text(NameModel { labels, complete: true }) matches Ok(text) && name::split(
            text,
        ) == labels,
{
    law_target_is_dotted(labels);
    names::law_split_undoes_join(labels, Seq::empty());
}

/// A target with a label that is not text fails, unless the labels before it
/// are already too long.
pub proof fn law_target_is_no_text(labels: Seq<Seq<u8>>, bad: int, complete: bool)
    requires
        0 <= bad < labels.len(),
        all_text(labels.take(bad)),
        !vstd::utf8::valid_utf8(labels[bad]),
    ensures
        answer::target_text(NameModel { labels, complete }) == Err::<Seq<u8>, GetQueryResultError>(
            if names::dotted(labels.take(bad)).len() <= 253 {
                GetQueryResultError::Failed
            } else {
                GetQueryResultError::SrvTargetTooLong
            },
        ),
{
    lemma_join_fails_at(labels, bad);
}

/// The mathematical value of what is read or handed back has its very fields.
pub proof fn law_values_keep_their_fields<'a>(
    address: IpAddress,
    srv: SrvRecord<heapless::String<253>>,
    wire_srv: SrvRecord<&'a [u8]>,
    bytes: &'a [u8],
    type_: Type,
    v4: Ipv4Address,
    v6: Ipv6Address,
    ttl: u32,
    error: GetQueryResultError,
    results: heapless::Vec<QueryResult, 1>,
)
    ensures
        QueryResult::Address(address)@ == ResultModel::Address(address),
        QueryResult::Srv(srv)@ matches ResultModel::Srv(model) && model.priority == srv.priority
            && model.weight == srv.weight && model.port == srv.port && model.target
            == storage::target_bytes(srv.target),
        RecordData::A(v4)@ == RecordDataModel::A(v4),
        RecordData::Aaaa(v6)@ == RecordDataModel::Aaaa(v6),
        RecordData::Cname(bytes)@ == RecordDataModel::Cname(bytes@),
        RecordData::Other(type_, bytes)@ == RecordDataModel::Other(type_, bytes@),
        RecordData::Srv(wire_srv)@ matches RecordDataModel::Srv(model) && model.priority
            == wire_srv.priority && model.weight == wire_srv.weight && model.port == wire_srv.port
            && model.target == wire_srv.target@,
        (Question { name: bytes, type_ })@ == (QuestionModel { name: bytes@, type_ }),
        (Record { name: bytes, ttl, data: RecordData::A(v4) })@ == (RecordModel {
            name: bytes@,
            ttl,
            data: RecordDataModel::A(v4),
        }),
        Verdict::Ignored@ == VerdictModel::Ignored,
        Verdict::Failed(error)@ == VerdictModel::Failed(error),
        Verdict::Resolved(results)@ == VerdictModel::Resolved(
            ResultModel::list(storage::result_items(results)),
        ),
        IpAddress::Ipv4(v4).is_unspecified() <==> v4.bits == 0,
        IpAddress::Ipv6(v6).is_unspecified() <==> v6.bits == 0,
{
}

/// A list of answers has the values of the answers, each at its place.
pub proof fn law_answer_lists(items: Seq<QueryResult>, at: int)
    requires
        0 <= at < items.len(),
    ensures
        ResultModel::list(items).len() == items.len(),
        ResultModel::list(items)[at] == items[at]@,
{
}

} // verus!
