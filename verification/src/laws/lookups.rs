//! Whole lookups, from the bytes of a response to the result.

use vstd::prelude::*;

use crate::error::GetQueryResultError;
use crate::ip::IpAddress;
use crate::laws;
use crate::laws::messages;
use crate::laws::names;
use crate::laws::sockets;
use crate::name::NameModel;
use crate::query::{PendingModel, QueryModel, StateModel};
use crate::result::ResultModel;
use crate::socket::SocketModel;
use crate::wire::{HeaderModel, QuestionModel, RecordModel, Type};

verus! {

/// A response in wire format: a header with two bytes of flags, so many
/// answers and any counts of other records, the question, and then the answers
/// and whatever else there is.
pub open spec fn response(
    txid: u16,
    flags: (u8, u8),
    count: u16,
    others: Seq<u8>,
    labels: Seq<Seq<u8>>,
    type_: Type,
    answers: Seq<u8>,
) -> Seq<u8> {
    messages::two_bytes(txid) + seq![flags.0, flags.1, 0, 1] + messages::two_bytes(count) + others
        + names::spelled(labels) + messages::two_bytes(type_.code()) + seq![0u8, 1u8] + answers
}

/// Whether flags are those of a response to a query that does not say that the
/// name does not exist.
pub open spec fn is_answer(flags: (u8, u8)) -> bool {
    flags.0 >= 128 && flags.0 % 128 < 8 && flags.1 % 16 != 3
}

/// Whether a slot holds the first query that waits for a message, for the name
/// with these labels.
pub open spec fn is_first_for(
    socket: SocketModel,
    at: int,
    pending: PendingModel,
    labels: Seq<Seq<u8>>,
    packet: Seq<u8>,
) -> bool {
    &&& 0 <= at < socket.queries.len()
    &&& socket.queries[at] matches Some(query)
    &&& query.state == StateModel::Pending(pending)
    &&& pending.name == names::spelled(labels)
    &&& forall|i: int|
        0 <= i < at ==> !sockets::waits_for(#[trigger] socket.queries[i], pending.port, packet)
}

/// Whether a slot holds a query that has ended in a state.
pub open spec fn ended_in(slot: Option<QueryModel>, state: StateModel) -> bool {
    slot matches Some(query) && query.state == state && query.waker is None
}

proof fn lemma_response(
    txid: u16,
    flags: (u8, u8),
    count: u16,
    others: Seq<u8>,
    labels: Seq<Seq<u8>>,
    type_: Type,
    answers: Seq<u8>,
)
    requires
        others.len() == 4,
        names::all_short(labels),
        Type::from_code(type_.code()) == type_,
    ensures
        ({
            let packet = response(txid, flags, count, others, labels, type_, answers);
            let name = names::spelled(labels);
            &&& packet.len() >= 12
            &&& messages::number(packet[0], packet[1]) == txid
            &&& packet[2] == flags.0 && packet[3] == flags.1 && packet[4] == 0 && packet[5] == 1
            &&& HeaderModel::parse(packet).answer_record_count == count
            &&& packet.skip(12) == name + (messages::two_bytes(type_.code()) + seq![0u8, 1u8]
                + answers)
            &&& QuestionModel::parse(packet.skip(12)) == Some(
                (QuestionModel { name, type_ }, answers),
            )
            &&& NameModel::decode(packet, name) == (NameModel { labels, complete: true })
        }),
{
    let packet = response(txid, flags, count, others, labels, type_, answers);
    let name = names::spelled(labels);
    assert(packet[6] == messages::two_bytes(count)[0]);
    assert(packet[7] == messages::two_bytes(count)[1]);
    messages::law_header_bytes(packet);
    let body = name + messages::two_bytes(type_.code()) + seq![0u8, 1u8];
    assert(packet.skip(12) =~= body + answers);
    assert(packet.skip(12) =~= name + (messages::two_bytes(type_.code()) + seq![0u8, 1u8]
        + answers));
    messages::law_question_bytes(labels, seq![0u8], type_, answers);
    names::law_spelled_name_reads_back(packet, labels, Seq::empty());
    assert(name + Seq::<u8>::empty() =~= name);
}

/// A response that repeats the question of the first query that waits for it
/// is read by that query.
proof fn lemma_response_read(
    socket: SocketModel,
    at: int,
    pending: PendingModel,
    flags: (u8, u8),
    count: u16,
    others: Seq<u8>,
    labels: Seq<Seq<u8>>,
    answers: Seq<u8>,
)
    requires
        is_answer(flags),
        others.len() == 4,
        names::all_short(labels),
        Type::from_code(pending.type_.code()) == pending.type_,
        is_first_for(
            socket,
            at,
            pending,
            labels,
            response(pending.txid, flags, count, others, labels, pending.type_, answers),
        ),
    ensures
        ({
            let packet = response(
                pending.txid,
                flags,
                count,
                others,
                labels,
                pending.type_,
                answers,
            );
            &&& laws::repeats_question(packet, pending, answers)
            &&& HeaderModel::parse(packet).answer_record_count == count
            &&& NameModel::decode(packet, pending.name) == (NameModel { labels, complete: true })
            &&& socket.received(pending.port, packet).queries[at] == Some(
                socket.queries[at]->0.answered(packet),
            )
        }),
{
    let packet = response(pending.txid, flags, count, others, labels, pending.type_, answers);
    lemma_response(pending.txid, flags, count, others, labels, pending.type_, answers);
    sockets::law_message_is_taken(socket, pending.port, packet, at);
    let full = NameModel { labels, complete: true };
    laws::law_compare_names(full, full);
    assert(sockets::looks_like_response(packet));
    assert(sockets::waits_for(socket.queries[at], pending.port, packet));
}

proof fn lemma_one_parsed(rest: Seq<u8>, record: RecordModel, tail: Seq<u8>)
    requires
        RecordModel::parse(rest) == Some((record, tail)),
    ensures
        laws::parsed_records(rest, 1) == Some(seq![record]),
{
    reveal_with_fuel(laws::parsed_records, 2);
    assert(seq![record] + Seq::<RecordModel>::empty() =~= seq![record]);
}

/// What one record with a result, of the name that is looked up, means for a
/// query.
proof fn lemma_one_answer(
    query: QueryModel,
    pending: PendingModel,
    packet: Seq<u8>,
    rest: Seq<u8>,
    labels: Seq<Seq<u8>>,
    record: RecordModel,
    tail: Seq<u8>,
    result: ResultModel,
)
    requires
        query.state == StateModel::Pending(pending),
        laws::repeats_question(packet, pending, rest),
        HeaderModel::parse(packet).answer_record_count == 1,
        NameModel::decode(packet, pending.name) == (NameModel { labels, complete: true }),
        RecordModel::parse(rest) == Some((record, tail)),
        NameModel::decode(packet, record.name) == (NameModel { labels, complete: true }),
        laws::result_of(packet, record.data) == Some(result),
    ensures
        query.answered(packet) == QueryModel::ended(StateModel::Completed(seq![result])),
{
    let full = NameModel { labels, complete: true };
    let records = seq![record];
    laws::law_compare_names(full, full);
    lemma_one_parsed(rest, record, tail);
    assert(laws::name_at(packet, records, full, 0) == full);
    assert forall|i: int| 0 <= i < records.len() implies laws::is_usable(
        packet,
        #[trigger] records[i],
        laws::name_at(packet, records, full, i),
    ) by {
        assert(i == 0);
    }
    laws::law_answers_kept_in_order(query, pending, packet, rest, records);
    reveal_with_fuel(laws::results_until, 2);
    assert(laws::results_until(packet, records, full, 1) =~= seq![result]);
}

/// A lookup of an address is answered: a response that repeats the question,
/// with any authority and additional records, and with one record of the type
/// that was asked for under a name that reads as the one that was asked for,
/// ends the query with the address in the record.
pub proof fn law_address_lookup(
    socket: SocketModel,
    at: int,
    pending: PendingModel,
    flags: (u8, u8),
    others: Seq<u8>,
    labels: Seq<Seq<u8>>,
    owner: (Seq<Seq<u8>>, Seq<u8>),
    ttl: Seq<u8>,
    data: Seq<u8>,
    tail: Seq<u8>,
)
    requires
        is_answer(flags),
        others.len() == 4,
        names::all_short(labels),
        names::all_short(owner.0),
        messages::is_name_end(owner.1),
        ttl.len() == 4,
        pending.type_ == Type::A && data.len() == 4 || pending.type_ == Type::Aaaa && data.len()
            == 16,
        ({
            let name = names::headed(owner.0) + owner.1;
            let answers = messages::record_bytes(name, pending.type_.code(), ttl, data) + tail;
            let packet = response(
                pending.txid,
                flags,
                1,
                others,
                labels,
                pending.type_,
                answers,
            );
            &&& is_first_for(socket, at, pending, labels, packet)
            &&& names::spells(packet, name, packet.len() as int, labels)
        }),
    ensures
        ({
            let name = names::headed(owner.0) + owner.1;
            let answers = messages::record_bytes(name, pending.type_.code(), ttl, data) + tail;
            let packet = response(
                pending.txid,
                flags,
                1,
                others,
                labels,
                pending.type_,
                answers,
            );
            &&& socket.received(pending.port, packet).queries[at] matches Some(next)
            &&& next.waker is None
            &&& next.state matches StateModel::Completed(results)
            &&& results.len() == 1
            &&& results[0] matches ResultModel::Address(address)
            &&& match address {
                IpAddress::Ipv4(v4) => data.len() == 4 && v4.bits == messages::four_octets(data),
                IpAddress::Ipv6(v6) => data.len() == 16 && v6.bits == messages::sixteen_octets(
                    data,
                ),
            }
        }),
{
    let name = names::headed(owner.0) + owner.1;
    let code = pending.type_.code();
    let answers = messages::record_bytes(name, code, ttl, data) + tail;
    let packet = response(pending.txid, flags, 1, others, labels, pending.type_, answers);
    messages::law_codes(code, 0);
    messages::law_record_data(code, data);
    messages::law_record_bytes(owner.0, owner.1, code, ttl, data, tail);
    lemma_response_read(socket, at, pending, flags, 1, others, labels, answers);
    names::law_name_read_as_spelled(packet, name, labels);
    let (record, rest) = RecordModel::parse(answers)->0;
    lemma_one_answer(
        socket.queries[at]->0,
        pending,
        packet,
        answers,
        labels,
        record,
        rest,
        laws::result_of(packet, record.data)->0,
    );
}

/// The data of a service: priority, weight, port and target.
pub open spec fn service_bytes(priority: u16, weight: u16, port: u16, target: Seq<u8>) -> Seq<u8> {
    messages::two_bytes(priority) + messages::two_bytes(weight) + messages::two_bytes(port) + target
}

/// A lookup of a service is answered: the query ends with the priority, weight
/// and port in the record, and with the labels of the target joined with dots,
/// where they are text and that takes no more than 253 bytes; where it takes
/// more, the query ends for that reason.
pub proof fn law_service_lookup(
    socket: SocketModel,
    at: int,
    pending: PendingModel,
    flags: (u8, u8),
    others: Seq<u8>,
    labels: Seq<Seq<u8>>,
    owner: (Seq<Seq<u8>>, Seq<u8>),
    ttl: Seq<u8>,
    numbers: (u16, u16, u16),
    target: Seq<u8>,
    target_labels: Seq<Seq<u8>>,
    tail: Seq<u8>,
)
    requires
        is_answer(flags),
        others.len() == 4,
        names::all_short(labels),
        names::all_short(owner.0),
        messages::is_name_end(owner.1),
        messages::all_text(target_labels),
        ttl.len() == 4,
        target.len() < 0xfff0,
        pending.type_ == Type::Srv,
        ({
            let name = names::headed(owner.0) + owner.1;
            let data = service_bytes(numbers.0, numbers.1, numbers.2, target);
            let answers = messages::record_bytes(name, 33, ttl, data) + tail;
            let packet = response(pending.txid, flags, 1, others, labels, Type::Srv, answers);
            &&& is_first_for(socket, at, pending, labels, packet)
            &&& names::spells(packet, name, packet.len() as int, labels)
            &&& names::spells(packet, target, packet.len() as int, target_labels)
        }),
    ensures
        ({
            let name = names::headed(owner.0) + owner.1;
            let data = service_bytes(numbers.0, numbers.1, numbers.2, target);
            let answers = messages::record_bytes(name, 33, ttl, data) + tail;
            let packet = response(pending.txid, flags, 1, others, labels, Type::Srv, answers);
            let text = names::dotted(target_labels);
            let after = socket.received(pending.port, packet);
            if text.len() <= 253 {
                &&& after.queries[at] matches Some(next)
                &&& next.waker is None
                &&& next.state matches StateModel::Completed(results)
                &&& results.len() == 1
                &&& results[0] matches ResultModel::Srv(srv)
                &&& srv.priority == numbers.0
                &&& srv.weight == numbers.1
                &&& srv.port == numbers.2
                &&& srv.target == text
            } else {
                ended_in(
                    after.queries[at],
                    StateModel::Failure(GetQueryResultError::SrvTargetTooLong),
                )
            }
        }),
{
    let name = names::headed(owner.0) + owner.1;
    let data = service_bytes(numbers.0, numbers.1, numbers.2, target);
    let answers = messages::record_bytes(name, 33, ttl, data) + tail;
    let packet = response(pending.txid, flags, 1, others, labels, Type::Srv, answers);
    messages::law_codes(33, 0);
    messages::law_record_data(33, data);
    messages::law_record_bytes(owner.0, owner.1, 33, ttl, data, tail);
    lemma_response_read(socket, at, pending, flags, 1, others, labels, answers);
    names::law_name_read_as_spelled(packet, name, labels);
    names::law_name_read_as_spelled(packet, target, target_labels);
    messages::law_target_is_dotted(target_labels);
    let (record, rest) = RecordModel::parse(answers)->0;
    let srv = record.data->Srv_0;
    assert(data[0] == messages::two_bytes(numbers.0)[0] && data[1] == messages::two_bytes(
        numbers.0,
    )[1]);
    assert(data[2] == messages::two_bytes(numbers.1)[0] && data[3] == messages::two_bytes(
        numbers.1,
    )[1]);
    assert(data[4] == messages::two_bytes(numbers.2)[0] && data[5] == messages::two_bytes(
        numbers.2,
    )[1]);
    assert(srv.target =~= data.skip(6));
    assert(srv.target =~= target);
    let full = NameModel { labels, complete: true };
    if names::dotted(target_labels).len() <= 253 {
        lemma_one_answer(
            socket.queries[at]->0,
            pending,
            packet,
            answers,
            labels,
            record,
            rest,
            laws::result_of(packet, record.data)->0,
        );
    } else {
        let none = Seq::<RecordModel>::empty();
        laws::law_compare_names(full, full);
        assert(laws::parsed_records(answers, 0) == Some(none));
        assert(laws::name_at(packet, none, full, 0) == full);
        assert(laws::bytes_after(answers, 0) == answers);
        laws::law_unusable_record_decides(
            socket.queries[at]->0,
            pending,
            packet,
            answers,
            none,
        );
    }
}

/// A lookup follows an alias: a response that repeats the question, and holds
/// an alias of the name and then an address of the name behind the alias, each
/// under a name that reads as the right one, ends the query with the address.
pub proof fn law_alias_lookup(
    socket: SocketModel,
    at: int,
    pending: PendingModel,
    flags: (u8, u8),
    others: Seq<u8>,
    labels: Seq<Seq<u8>>,
    owner: (Seq<Seq<u8>>, Seq<u8>),
    ttl: Seq<u8>,
    alias: Seq<u8>,
    alias_labels: Seq<Seq<u8>>,
    alias_owner: (Seq<Seq<u8>>, Seq<u8>),
    alias_ttl: Seq<u8>,
    data: Seq<u8>,
    tail: Seq<u8>,
)
    requires
        is_answer(flags),
        others.len() == 4,
        names::all_short(labels),
        names::all_short(owner.0),
        messages::is_name_end(owner.1),
        names::all_short(alias_owner.0),
        messages::is_name_end(alias_owner.1),
        names::spelled(alias_labels).len() <= 255,
        ttl.len() == 4,
        alias_ttl.len() == 4,
        alias.len() < 0x1_0000,
        pending.type_ == Type::A,
        data.len() == 4,
        ({
            let name = names::headed(owner.0) + owner.1;
            let alias_name = names::headed(alias_owner.0) + alias_owner.1;
            let answers = messages::record_bytes(name, 5, ttl, alias) + (messages::record_bytes(
                alias_name,
                1,
                alias_ttl,
                data,
            ) + tail);
            let packet = response(pending.txid, flags, 2, others, labels, Type::A, answers);
            &&& is_first_for(socket, at, pending, labels, packet)
            &&& names::spells(packet, name, packet.len() as int, labels)
            &&& names::spells(packet, alias, packet.len() as int, alias_labels)
            &&& names::spells(packet, alias_name, packet.len() as int, alias_labels)
        }),
    ensures
        ({
            let name = names::headed(owner.0) + owner.1;
            let alias_name = names::headed(alias_owner.0) + alias_owner.1;
            let answers = messages::record_bytes(name, 5, ttl, alias) + (messages::record_bytes(
                alias_name,
                1,
                alias_ttl,
                data,
            ) + tail);
            let packet = response(pending.txid, flags, 2, others, labels, Type::A, answers);
            &&& socket.received(pending.port, packet).queries[at] matches Some(next)
            &&& next.waker is None
            &&& next.state matches StateModel::Completed(results)
            &&& results.len() == 1
            &&& results[0] matches ResultModel::Address(IpAddress::Ipv4(v4))
            &&& v4.bits == messages::four_octets(data)
        }),
{
    let name = names::headed(owner.0) + owner.1;
    let alias_name = names::headed(alias_owner.0) + alias_owner.1;
    let second = messages::record_bytes(alias_name, 1, alias_ttl, data) + tail;
    let answers = messages::record_bytes(name, 5, ttl, alias) + second;
    let packet = response(pending.txid, flags, 2, others, labels, Type::A, answers);
    messages::law_codes(5, 0);
    messages::law_codes(1, 0);
    messages::law_record_data(5, alias);
    messages::law_record_data(1, data);
    messages::law_record_bytes(owner.0, owner.1, 5, ttl, alias, second);
    messages::law_record_bytes(alias_owner.0, alias_owner.1, 1, alias_ttl, data, tail);
    lemma_response_read(socket, at, pending, flags, 2, others, labels, answers);
    names::law_name_read_as_spelled(packet, name, labels);
    names::law_name_read_as_spelled(packet, alias, alias_labels);
    names::law_name_read_as_spelled(packet, alias_name, alias_labels);
    let full = NameModel { labels, complete: true };
    laws::law_compare_names(full, full);
    let (one, _) = RecordModel::parse(answers)->0;
    let (two, last) = RecordModel::parse(second)->0;
    reveal_with_fuel(laws::parsed_records, 3);
    lemma_one_parsed(second, two, last);
    assert(seq![one] + seq![two] =~= seq![one, two]);
    names::lemma_headed(alias_labels);
    laws::law_alias_followed(socket.queries[at]->0, pending, packet, answers, one, two);
}

/// The usual compressed response to a lookup of an alias: the alias shares the
/// end of its name with the question, by a pointer into the question, and the
/// name of the address is a pointer to the alias in the record before it. The
/// lookup ends with the address.
pub proof fn law_compressed_alias_lookup(
    socket: SocketModel,
    at: int,
    pending: PendingModel,
    flags: (u8, u8),
    others: Seq<u8>,
    labels: Seq<Seq<u8>>,
    shared: int,
    head: Seq<Seq<u8>>,
    ttl: Seq<u8>,
    data: Seq<u8>,
    tail: Seq<u8>,
)
    requires
        is_answer(flags),
        others.len() == 4,
        names::all_short(labels),
        names::all_short(head),
        0 <= shared <= labels.len(),
        names::spelled(labels).len() <= 255,
        names::spelled(head + labels.skip(shared)).len() <= 255,
        names::headed(head).len() <= 255,
        ttl.len() == 4,
        pending.type_ == Type::A,
        data.len() == 4,
        is_first_for(
            socket,
            at,
            pending,
            labels,
            compressed_alias_response(
                pending.txid,
                flags,
                others,
                labels,
                shared,
                head,
                ttl,
                data,
                tail,
            ),
        ),
    ensures
        ({
            let packet = compressed_alias_response(
                pending.txid,
                flags,
                others,
                labels,
                shared,
                head,
                ttl,
                data,
                tail,
            );
            &&& socket.received(pending.port, packet).queries[at] matches Some(next)
            &&& next.waker is None
            &&& next.state matches StateModel::Completed(results)
            &&& results.len() == 1
            &&& results[0] matches ResultModel::Address(IpAddress::Ipv4(v4))
            &&& v4.bits == messages::four_octets(data)
        }),
{
    let none = Seq::<Seq<u8>>::empty();
    let to_alias = names::pointer(alias_offset(labels));
    let alias = names::headed(head) + names::pointer(12 + names::headed_len(labels, shared));
    assert(names::headed(none) + names::pointer(12) =~= names::pointer(12));
    assert(names::headed(none) + to_alias =~= to_alias);
    messages::law_codes(1, 0);
    lemma_compressed_names(pending.txid, flags, others, labels, shared, head, ttl, data, tail);
    law_alias_lookup(
        socket,
        at,
        pending,
        flags,
        others,
        labels,
        (none, names::pointer(12)),
        ttl,
        alias,
        head + labels.skip(shared),
        (none, to_alias),
        ttl,
        data,
        tail,
    );
}

/// Where the parts of bytes that were put together stand.
proof fn lemma_parts(
    a: Seq<u8>,
    h: Seq<u8>,
    e: Seq<u8>,
    m: Seq<u8>,
    x: Seq<u8>,
    s: Seq<u8>,
)
    ensures
        ({
            let p = a + h + e + m + x + s;
            let q = (a + h).len() as int;
            let o = (a + h + e + m).len() as int;
            &&& p.skip(a.len() as int) == h + e + (m + x + s)
            &&& p.take(q) == a + h
            &&& p.skip(q) == e + (m + x + s)
            &&& p.skip(o) == x + s
            &&& p.take(o).take(q) == a + h
            &&& p.take(o).skip(q) == e + m
        }),
{
    let p = a + h + e + m + x + s;
    let q = (a + h).len() as int;
    let o = (a + h + e + m).len() as int;
    assert(p.skip(a.len() as int) =~= h + e + (m + x + s));
    assert(p.take(q) =~= a + h);
    assert(p.skip(q) =~= e + (m + x + s));
    assert(p.skip(o) =~= x + s);
    assert(p.take(o) =~= a + h + e + m);
    assert(p.take(o).take(q) =~= a + h);
    assert(p.take(o).skip(q) =~= e + m);
}

/// The names in bytes made of a header, a name in two parts, an alias that
/// ends in a pointer to the second part, and more: a pointer to the name reads
/// as its labels, and both the alias and a pointer to it as its own.
proof fn lemma_names_in_parts(
    a: Seq<u8>,
    first: Seq<Seq<u8>>,
    ending: Seq<Seq<u8>>,
    m: Seq<u8>,
    head: Seq<Seq<u8>>,
    s: Seq<u8>,
)
    requires
        names::all_short(first + ending),
        names::all_short(ending),
        names::all_short(head),
        (a + names::headed(first) + names::spelled(ending) + m).len() < 0x4000,
    ensures
        ({
            let h = names::headed(first);
            let e = names::spelled(ending);
            let q = (a + h).len() as int;
            let o = (a + h + e + m).len() as int;
            let x = names::headed(head) + names::pointer(q);
            let p = a + h + e + m + x + s;
            &&& names::spells(
                p,
                names::pointer(a.len() as int),
                p.len() as int,
                first + ending,
            )
            &&& names::spells(p, x, p.len() as int, head + ending)
            &&& names::spells(p, names::pointer(o), p.len() as int, head + ending)
        }),
{
    let none = Seq::<Seq<u8>>::empty();
    let nothing = Seq::<u8>::empty();
    let h = names::headed(first);
    let e = names::spelled(ending);
    let q = (a + h).len() as int;
    let o = (a + h + e + m).len() as int;
    let x = names::headed(head) + names::pointer(q);
    let p = a + h + e + m + x + s;
    lemma_parts(a, h, e, m, x, s);
    assert(names::spells(p, names::pointer(a.len() as int), p.len() as int, first + ending)) by {
        let k = a.len() as int;
        lemma_headed_split(first + ending, first.len() as int);
        assert((first + ending).take(first.len() as int) =~= first);
        assert((first + ending).skip(first.len() as int) =~= ending);
        assert(names::spelled(first + ending) =~= h + e);
        names::law_spelled_name_reads_back(p.take(k), first + ending, m + x + s);
        names::law_compressed_name(p, none, k, nothing);
        assert(names::headed(none) + names::pointer(k) + nothing =~= names::pointer(k));
        assert(none + (first + ending) =~= first + ending);
        names::law_name_read_as_spelled(p, names::pointer(k), first + ending);
    }
    assert(names::spells(p, x, p.len() as int, head + ending)) by {
        names::law_spelled_name_reads_back(p.take(q), ending, m + x + s);
        names::law_compressed_name(p, head, q, nothing);
        assert(x + nothing =~= x);
        names::law_name_read_as_spelled(p, x, head + ending);
    }
    assert(names::spells(p, names::pointer(o), p.len() as int, head + ending)) by {
        let sight = p.take(o);
        names::law_spelled_name_reads_back(sight.take(q), ending, m);
        names::law_compressed_name(sight, head, q, s);
        names::law_compressed_name(p, none, o, nothing);
        assert(names::headed(none) + names::pointer(o) + nothing =~= names::pointer(o));
        assert(none + (head + ending) =~= head + ending);
        names::law_name_read_as_spelled(p, names::pointer(o), head + ending);
    }
}

proof fn lemma_compressed_names(
    txid: u16,
    flags: (u8, u8),
    others: Seq<u8>,
    labels: Seq<Seq<u8>>,
    shared: int,
    head: Seq<Seq<u8>>,
    ttl: Seq<u8>,
    data: Seq<u8>,
    tail: Seq<u8>,
)
    requires
        others.len() == 4,
        names::all_short(labels),
        names::all_short(head),
        0 <= shared <= labels.len(),
        names::spelled(labels).len() <= 255,
        ttl.len() == 4,
    ensures
        ({
            let packet = compressed_alias_response(
                txid,
                flags,
                others,
                labels,
                shared,
                head,
                ttl,
                data,
                tail,
            );
            let alias = names::headed(head) + names::pointer(
                12 + names::headed_len(labels, shared),
            );
            let alias_labels = head + labels.skip(shared);
            &&& names::spells(packet, names::pointer(12), packet.len() as int, labels)
            &&& names::spells(packet, alias, packet.len() as int, alias_labels)
            &&& names::spells(
                packet,
                names::pointer(alias_offset(labels)),
                packet.len() as int,
                alias_labels,
            )
        }),
{
    let packet = compressed_alias_response(
        txid,
        flags,
        others,
        labels,
        shared,
        head,
        ttl,
        data,
        tail,
    );
    let first = labels.take(shared);
    let ending = labels.skip(shared);
    let q = 12 + names::headed_len(labels, shared);
    let alias = names::headed(head) + names::pointer(q);
    let a = messages::two_bytes(txid) + seq![flags.0, flags.1, 0, 1] + messages::two_bytes(2)
        + others;
    let m = messages::two_bytes(Type::A.code()) + seq![0u8, 1u8] + names::pointer(12)
        + messages::two_bytes(5) + seq![0u8, 1u8] + ttl + messages::two_bytes(alias.len() as u16);
    let s = messages::record_bytes(names::pointer(alias_offset(labels)), 1, ttl, data) + tail;
    lemma_headed_split(labels, shared);
    assert(first + ending =~= labels);
    assert(names::spelled(labels) =~= names::headed(first) + names::spelled(ending));
    assert(names::all_short(ending)) by {
        assert forall|i: int| 0 <= i < ending.len() implies 1 <= (#[trigger] ending[i]).len()
            <= 63 by {
            assert(ending[i] == labels[i + shared]);
        }
    }
    assert(a.len() == 12);
    assert(m.len() == 16);
    lemma_names_in_parts(a, first, ending, m, head, s);
    assert(packet =~= a + names::headed(first) + names::spelled(ending) + m + alias + s);
}

/// Where the alias stands in the usual compressed response: behind the header,
/// the question, and the twelve bytes of its record that come before it.
pub open spec fn alias_offset(labels: Seq<Seq<u8>>) -> int {
    names::spelled(labels).len() as int + 28
}

/// The usual compressed response to a lookup of an alias.
pub open spec fn compressed_alias_response(
    txid: u16,
    flags: (u8, u8),
    others: Seq<u8>,
    labels: Seq<Seq<u8>>,
    shared: int,
    head: Seq<Seq<u8>>,
    ttl: Seq<u8>,
    data: Seq<u8>,
    tail: Seq<u8>,
) -> Seq<u8> {
    let alias = names::headed(head) + names::pointer(12 + names::headed_len(labels, shared));
    response(
        txid,
        flags,
        2,
        others,
        labels,
        Type::A,
        messages::record_bytes(names::pointer(12), 5, ttl, alias) + (messages::record_bytes(
            names::pointer(alias_offset(labels)),
            1,
            ttl,
            data,
        ) + tail),
    )
}

proof fn lemma_headed_split(labels: Seq<Seq<u8>>, at: int)
    requires
        0 <= at <= labels.len(),
    ensures
        names::headed(labels) == names::headed(labels.take(at)) + names::headed(labels.skip(at)),
    decreases at,
{
    if at == 0 {
        assert(labels.skip(0) =~= labels);
        assert(labels.take(0) =~= Seq::<Seq<u8>>::empty());
        assert(names::headed(labels) =~= names::headed(labels.take(0)) + names::headed(
            labels.skip(0),
        ));
    } else {
        lemma_headed_split(labels.drop_first(), at - 1);
        assert(labels.take(at).drop_first() =~= labels.drop_first().take(at - 1));
        assert(labels.skip(at) =~= labels.drop_first().skip(at - 1));
        assert(labels.take(at)[0] == labels[0]);
        assert(names::headed(labels) =~= names::headed(labels.take(at)) + names::headed(
            labels.skip(at),
        ));
    }
}

/// A query keeps one result: the first.
pub proof fn law_first_result_is_kept(results: Seq<ResultModel>)
    requires
        results.len() > 0,
    ensures
        laws::kept_results(results) =~= seq![results[0]],
{
}

} // verus!
