//! What starting, receiving and sending do, in terms of their arguments.

use vstd::prelude::*;

use crate::error::{Error, StartQueryError};
use crate::ip::{IpAddress, IpProtocol, IpRepr, UdpRepr};
use crate::laws::messages;
use crate::laws::names;
use crate::laws::schedule;
use crate::name;
use crate::name::NameModel;
use crate::query::{DnsQuery, MulticastDns, PendingModel, QueryIds, QueryModel, StateModel};
use crate::slots;
use crate::socket;
use crate::socket::{QueryHandle, Request, SocketModel};
use crate::wire::{HeaderModel, QuestionModel, Type};

verus! {

/// Whether every slot is taken.
pub open spec fn all_taken(queries: Seq<Option<QueryModel>>) -> bool {
    forall|i: int| 0 <= i < queries.len() ==> #[trigger] queries[i] is Some
}

/// Whether two sockets differ in nothing but their queries.
pub open spec fn same_settings(a: SocketModel, b: SocketModel) -> bool {
    a.servers == b.servers && a.growable == b.growable && a.hop_limit == b.hop_limit
}

/// A query that is started has the very name, type, ID and port that it was
/// started with, in the first free slot, or in a new one where all are taken:
/// it is due at once, has a delay of one second, has asked no server and has
/// no waker, and its request asks for that name and type under that ID. No
/// other slot changes.
pub proof fn law_started_query_has_its_arguments(
    socket: SocketModel,
    raw_name: Seq<u8>,
    type_: Type,
    ids: QueryIds,
    mdns: MulticastDns,
)
    ensures
        socket.started(raw_name, type_, ids, mdns) matches (after, Ok(at)) ==> {
            &&& raw_name.len() <= 255
            &&& same_settings(socket, after)
            &&& 0 <= at < after.queries.len()
            &&& forall|i: int| 0 <= i < at ==> #[trigger] socket.queries[i] is Some
            &&& at < socket.queries.len() ==> socket.queries[at] is None && after.queries.len()
                == socket.queries.len()
            &&& at >= socket.queries.len() ==> at == socket.queries.len() && socket.growable
                && after.queries.len() == at + 1
            &&& forall|i: int|
                0 <= i < socket.queries.len() && i != at ==> #[trigger] after.queries[i]
                    == socket.queries[i]
            &&& after.queries[at] matches Some(query)
            &&& query.waker is None
            &&& schedule::is_pending(
                query,
                PendingModel {
                    name: raw_name,
                    type_,
                    port: ids.port,
                    txid: ids.txid,
                    timeout_at: None,
                    retransmit_at: 0,
                    delay: 1_000_000,
                    server_idx: 0,
                    mdns,
                },
            )
            &&& query.state->Pending_0.request() == messages::two_bytes(ids.txid) + seq![
                1u8,
                0,
                0,
                1,
                0,
                0,
                0,
                0,
                0,
                0,
            ] + raw_name + messages::two_bytes(type_.code()) + seq![0u8, 1u8]
        },
{
    socket::lemma_first_where_has(socket.queries, socket::is_free());
    let at = socket::first_where(socket.queries, socket::is_free());
    assert forall|i: int| 0 <= i < at implies #[trigger] socket.queries[i] is Some by {
        assert(!socket::is_free()(socket.queries[i]));
    }
    if at < socket.queries.len() {
        assert(socket::is_free()(socket.queries[at]));
    }
    if let (after, Ok(_)) = socket.started(raw_name, type_, ids, mdns) {
        messages::law_request_bytes(after.queries[at]->0.state->Pending_0);
    }
}

/// Starting a query fails exactly where every slot is taken and none can be
/// added, and then changes nothing, or where the name has more than 255 bytes,
/// and then leaves a slot free at the most.
pub proof fn law_start_fails(
    socket: SocketModel,
    raw_name: Seq<u8>,
    type_: Type,
    ids: QueryIds,
    mdns: MulticastDns,
)
    ensures
        ({
            let (after, r) = socket.started(raw_name, type_, ids, mdns);
            let full = all_taken(socket.queries);
            &&& r == Err::<int, StartQueryError>(StartQueryError::NoFreeSlot) <==> full
                && !socket.growable
            &&& r == Err::<int, StartQueryError>(StartQueryError::NameTooLong) <==> !(full
                && !socket.growable) && raw_name.len() > 255
            &&& r != Err::<int, StartQueryError>(StartQueryError::InvalidName)
            &&& r is Err ==> same_settings(socket, after)
            &&& r is Err ==> after.queries == (if full && socket.growable {
                socket.queries.push(None)
            } else {
                socket.queries
            })
        }),
{
    socket::lemma_first_where_has(socket.queries, socket::is_free());
    let at = socket::first_where(socket.queries, socket::is_free());
    if at < socket.queries.len() {
        assert(socket::is_free()(socket.queries[at]));
        assert(socket.queries[at] is None);
    } else {
        assert forall|i: int| 0 <= i < socket.queries.len() implies #[trigger] socket.queries[i] is Some by {
            assert(!socket::is_free()(socket.queries[i]));
        }
    }
}

/// A query for a text is the one for its labels in wire format: it goes to the
/// local network exactly where the last label is `local`. A text that has no
/// wire format changes nothing.
pub proof fn law_start_of_text(
    socket: SocketModel,
    text: Seq<u8>,
    labels: Seq<Seq<u8>>,
    type_: Type,
    ids: QueryIds,
)
    requires
        labels.len() > 0,
        names::have_no_dot(labels),
        names::all_short(labels),
        names::is_text_of(text, labels),
    ensures
        names::spelled(labels).len() <= 255 ==> socket.started_text(text, type_, ids)
            == socket.started(
            names::spelled(labels),
            type_,
            ids,
            if labels.last() =~= seq![0x6cu8, 0x6fu8, 0x63u8, 0x61u8, 0x6cu8] {
                MulticastDns::Enabled
            } else {
                MulticastDns::Disabled
            },
        ),
        names::spelled(labels).len() > 255 ==> socket.started_text(text, type_, ids) == (
            socket,
            Err::<int, StartQueryError>(StartQueryError::NameTooLong),
        ),
{
    names::law_text_in_wire_format(text, labels);
}

/// The request of a query that was started for a text, read back, has the ID
/// that the query was started with and one question, which asks for the labels
/// of the text and for the very type, where a number stands for it.
pub proof fn law_started_request_reads_back(
    socket: SocketModel,
    text: Seq<u8>,
    labels: Seq<Seq<u8>>,
    type_: Type,
    ids: QueryIds,
    packet: Seq<u8>,
)
    requires
        labels.len() > 0,
        names::have_no_dot(labels),
        names::all_short(labels),
        names::is_text_of(text, labels),
        Type::from_code(type_.code()) == type_,
    ensures
        socket.started_text(text, type_, ids) matches (after, Ok(at)) ==> {
            &&& after.queries[at] matches Some(query)
            &&& query.state matches StateModel::Pending(pending)
            &&& pending.port == ids.port
            &&& pending.request().len() >= 12
            &&& HeaderModel::parse(pending.request()).transaction_id == ids.txid
            &&& !HeaderModel::parse(pending.request()).response
            &&& HeaderModel::parse(pending.request()).question_count == 1
            &&& QuestionModel::parse(pending.request().skip(12)) matches Some((question, rest))
            &&& question.type_ == type_
            &&& rest.len() == 0
            &&& NameModel::decode(packet, question.name) == (NameModel { labels, complete: true })
        },
{
    law_start_of_text(socket, text, labels, type_, ids);
    if let (after, Ok(at)) = socket.started_text(text, type_, ids) {
        let mdns = if labels.last() =~= seq![0x6cu8, 0x6fu8, 0x63u8, 0x61u8, 0x6cu8] {
            MulticastDns::Enabled
        } else {
            MulticastDns::Disabled
        };
        let name = names::spelled(labels);
        law_started_query_has_its_arguments(socket, name, type_, ids, mdns);
        let request = after.queries[at]->0.state->Pending_0.request();
        messages::law_header_bytes(request);
        messages::law_question_bytes(labels, seq![0u8], type_, Seq::empty());
        assert(request[0] == messages::two_bytes(ids.txid)[0]);
        assert(request[1] == messages::two_bytes(ids.txid)[1]);
        assert(request.skip(12) =~= name + messages::two_bytes(type_.code()) + seq![0u8, 1u8]
            + Seq::<u8>::empty());
        names::law_spelled_name_reads_back(packet, labels, Seq::empty());
        assert(name + Seq::<u8>::empty() =~= name);
    }
}

/// A text that is refused is refused with what is wrong with it, and changes
/// nothing.
pub proof fn law_refused_text_changes_nothing(
    socket: SocketModel,
    text: Seq<u8>,
    type_: Type,
    ids: QueryIds,
)
    ensures
        name::wire_name(text) matches Err(e) ==> socket.started_text(text, type_, ids) == (
            socket,
            Err::<int, StartQueryError>(e),
        ),
{
}

/// Whether a message can be a response, by its bytes alone: it has a header, in
/// which the bit of a response is set, the opcode is that of a query and one
/// question is announced.
pub open spec fn looks_like_response(packet: Seq<u8>) -> bool {
    packet.len() >= 12 && packet[2] >= 128 && packet[2] % 128 < 8 && packet[4] == 0 && packet[5] == 1
}

/// Whether a slot holds a query that waits for a message to a port, by the
/// first two bytes of the message.
pub open spec fn waits_for(slot: Option<QueryModel>, dst_port: u16, packet: Seq<u8>) -> bool {
    slot matches Some(query) && query.state matches StateModel::Pending(pending) && pending.port
        == dst_port && pending.txid == messages::number(packet[0], packet[1])
}

/// A message is taken exactly where it looks like a response, whatever its
/// authority and additional sections: where its response code says that the
/// name does not exist, every query that waits for it fails; and else the
/// first query that waits for it reads it. No other slot changes.
pub proof fn law_message_is_taken(socket: SocketModel, dst_port: u16, packet: Seq<u8>, at: int)
    requires
        0 <= at < socket.queries.len(),
    ensures
        ({
            let after = socket.received(dst_port, packet);
            let waits = waits_for(socket.queries[at], dst_port, packet);
            let first = forall|i: int|
                0 <= i < at ==> !waits_for(#[trigger] socket.queries[i], dst_port, packet);
            &&& same_settings(socket, after)
            &&& after.queries.len() == socket.queries.len()
            &&& !looks_like_response(packet) ==> after == socket
            &&& !waits ==> after.queries[at] == socket.queries[at]
            &&& looks_like_response(packet) && waits && packet[3] % 16 == 3
                ==> (after.queries[at] matches Some(next) && schedule::gave_up(next))
            &&& looks_like_response(packet) && waits && packet[3] % 16 != 3
                ==> after.queries[at] == (if first {
                Some(socket.queries[at]->0.answered(packet))
            } else {
                socket.queries[at]
            })
        }),
{
    if packet.len() >= 12 {
        messages::law_header_bytes(packet);
    }
    let awaiting = socket::is_awaiting(dst_port, HeaderModel::parse(packet).transaction_id);
    socket::lemma_first_where_has(socket.queries, awaiting);
    let place = socket::first_where(socket.queries, awaiting);
    if looks_like_response(packet) {
        assert(SocketModel::is_response(packet));
        assert forall|i: int| 0 <= i < socket.queries.len() implies waits_for(
            #[trigger] socket.queries[i],
            dst_port,
            packet,
        ) == awaiting(socket.queries[i]) by {}
        if packet[3] % 16 != 3 && place < socket.queries.len() {
            assert(awaiting(socket.queries[place]));
            if at < place {
                assert(!awaiting(socket.queries[at]));
            }
            if place < at {
                assert(waits_for(socket.queries[place], dst_port, packet));
            }
            if at == place {
                assert forall|i: int| 0 <= i < at implies !waits_for(
                    #[trigger] socket.queries[i],
                    dst_port,
                    packet,
                ) by {
                    assert(!awaiting(socket.queries[i]));
                }
            }
        }
        if packet[3] % 16 != 3 && place >= socket.queries.len() {
            assert(!awaiting(socket.queries[at]));
        }
    }
}

/// A message that does not repeat the question of a query says nothing to it:
/// one whose question cannot be read, is of another type, or is of another
/// name.
pub proof fn law_other_question_is_ignored(query: QueryModel, pending: PendingModel, packet: Seq<u8>)
    requires
        query.state == StateModel::Pending(pending),
        QuestionModel::parse(packet.skip(12)) matches Some((question, _)) ==> question.type_
            != pending.type_ || NameModel::decode(packet, question.name).compare(
            NameModel::decode(packet, pending.name),
        ) != Ok::<bool, Error>(true),
    ensures
        query.answered(packet) == query,
{
}

/// A packet is for the socket where it comes from port 53 of one of its
/// servers, or from port 5353.
pub proof fn law_accepted_packets(socket: SocketModel, src_addr: IpAddress, src_port: u16)
    ensures
        socket.accepts(src_addr, src_port) <==> src_port == 5353 || src_port == 53 && exists|i: int|
            0 <= i < socket.servers.len() && socket.servers[i] == src_addr,
{
}

/// A socket keeps the first server of a list, where there is one.
pub proof fn law_kept_servers(servers: Seq<IpAddress>)
    ensures
        servers.len() == 0 ==> socket::kept_servers(servers) =~= Seq::empty(),
        servers.len() > 0 ==> socket::kept_servers(servers) =~= seq![servers[0]],
{
}

/// Handles stand for slots, and a handle's slot must hold a query.
pub proof fn law_handles(socket: SocketModel, handle: QueryHandle, error: StartQueryError)
    ensures
        QueryHandle::outcome(Ok(handle)) == Ok::<int, StartQueryError>(handle.index()),
        QueryHandle::outcome(Err(error)) == Err::<int, StartQueryError>(error),
        socket.holds(handle) <==> 0 <= handle.index() < socket.queries.len()
            && socket.queries[handle.index()] is Some,
{
}

/// When the next request of a query is due is known exactly while the query is
/// pending.
pub proof fn law_due_times(socket: SocketModel, at: int)
    requires
        0 <= at < socket.queries.len(),
    ensures
        socket.due_at(at) == (match socket.queries[at] {
            Some(QueryModel { state: StateModel::Pending(pending), .. }) => Some(
                pending.retransmit_at,
            ),
            _ => None::<int>,
        }),
{
}

/// Whether a packet is the request of a pending query, to a server, by its
/// bytes.
pub open spec fn is_own_packet(
    socket: SocketModel,
    pending: PendingModel,
    server: IpAddress,
    ip_repr: IpRepr,
    udp_repr: UdpRepr,
    payload: Seq<u8>,
) -> bool {
    &&& ip_repr.dst_addr == server
    &&& ip_repr.next_header == IpProtocol::Udp
    &&& ip_repr.payload_len == 8 + payload.len()
    &&& ip_repr.hop_limit == (match socket.hop_limit {
        Some(limit) => limit,
        None => 64u8,
    })
    &&& udp_repr.src_port == pending.port
    &&& udp_repr.dst_port == (match pending.mdns {
        MulticastDns::Disabled => 53u16,
        MulticastDns::Enabled => 5353u16,
    })
    &&& payload == messages::two_bytes(pending.txid) + seq![1u8, 0, 0, 1, 0, 0, 0, 0, 0, 0]
        + pending.name + messages::two_bytes(pending.type_.code()) + seq![0u8, 1u8]
}

/// A packet that may be sent is the request of the query in its slot: it goes
/// to the server to which the query owes it, from the source address for that
/// server, and from and to the ports of the query. No query in a slot before
/// it owes a request for which there is a source address.
pub proof fn law_packet_that_may_be_sent<S: Fn(&IpAddress) -> Option<IpAddress>>(
    socket: SocketModel,
    now: int,
    source_address: S,
    at: int,
    packet: (IpRepr, UdpRepr, &[u8]),
)
    requires
        socket.may_send(now, source_address, at, packet),
    ensures
        0 <= at < socket.queries.len(),
        ({
            &&& socket.queries[at] matches Some(query)
            &&& query.destination(socket.servers, now) matches Some(server)
            &&& call_ensures(source_address, (&server,), Some(packet.0.src_addr))
            &&& query.state matches StateModel::Pending(pending)
            &&& is_own_packet(socket, pending, server, packet.0, packet.1, packet.2@)
        }),
        forall|i: int|
            0 <= i < at ==> (#[trigger] socket.queries[i] matches Some(other)
                ==> other.destination(socket.servers, now) matches Some(server) ==> call_ensures(
                source_address,
                (&server,),
                None,
            )),
{
    let query = socket.queries[at]->0;
    if let StateModel::Pending(pending) = query.state {
        messages::law_request_bytes(pending);
        messages::law_request_bytes(query.prepared(socket.servers, now).state->Pending_0);
        let own = query.prepared(socket.servers, now).state->Pending_0;
        assert(own.name == pending.name && own.txid == pending.txid && own.type_ == pending.type_);
        assert(packet.2@ == own.request());
        assert(own.request() == pending.request());
        assert(messages::two_bytes(pending.txid).len() == 2);
    }
    assert forall|i: int| 0 <= i < at implies (#[trigger] socket.queries[i] matches Some(other)
        ==> other.destination(socket.servers, now) matches Some(server) ==> call_ensures(
        source_address,
        (&server,),
        None,
    )) by {
        assert(socket.destination(i, now) matches Some(server) ==> call_ensures(
            source_address,
            (&server,),
            None,
        ));
    }
}

/// What a dispatch makes of a slot that it goes past: nothing of a free one, a
/// query that owes no request is looked at, and one that owes a request, but
/// for whose server there is no source address, fails.
pub open spec fn went_past<S: Fn(&IpAddress) -> Option<IpAddress>>(
    socket: SocketModel,
    after: SocketModel,
    now: int,
    source_address: S,
    at: int,
) -> bool {
    match socket.queries[at] {
        None => after.queries[at] is None,
        Some(query) => match query.destination(socket.servers, now) {
            None => after.queries[at] == Some(query.prepared(socket.servers, now)),
            Some(server) => {
                &&& call_ensures(source_address, (&server,), None)
                &&& after.queries[at] matches Some(next)
                &&& schedule::gave_up(next)
            },
        },
    }
}

/// A dispatch that hands out no request goes past every slot. One that does
/// goes past the slots before that of the request and leaves those after it
/// alone; the request is one that may be sent, and its query is looked at, and
/// notes the request where handing it out succeeded.
pub proof fn law_dispatch_slot_by_slot<
    S: Fn(&IpAddress) -> Option<IpAddress>,
    F: FnOnce((IpRepr, UdpRepr, &[u8])) -> Result<(), E>,
    E,
>(
    socket: SocketModel,
    after: SocketModel,
    now: int,
    source_address: S,
    emit: F,
    r: Result<(), E>,
    at: int,
    packet: (IpRepr, UdpRepr, &[u8]),
)
    ensures
        socket.passed_over(after, now, source_address, socket.queries.len() as int)
            ==> forall|i: int|
            #![trigger after.queries[i]]
            0 <= i < socket.queries.len() ==> went_past(socket, after, now, source_address, i),
        socket.transmitted(after, now, source_address, emit, r, at, packet) ==> {
            &&& socket.may_send(now, source_address, at, packet)
            &&& call_ensures(emit, (packet,), r)
            &&& forall|i: int|
                #![trigger after.queries[i]]
                0 <= i < at ==> went_past(socket, after, now, source_address, i)
            &&& forall|i: int|
                at < i < socket.queries.len() ==> #[trigger] after.queries[i] == socket.queries[i]
            &&& after.queries[at] == Some(
                if r is Ok {
                    socket.queries[at]->0.prepared(socket.servers, now).sent(now)
                } else {
                    socket.queries[at]->0.prepared(socket.servers, now)
                },
            )
        },
{
    if socket.transmitted(after, now, source_address, emit, r, at, packet) {
        assert forall|i: int| 0 <= i < at implies (#[trigger] socket.destination(
            i,
            now,
        ) matches Some(server) ==> call_ensures(source_address, (&server,), None)) by {
            assert(after.queries[i] == socket.passed_slot(i, now));
        }
    }
}

/// A search that finds a request does the same up to the sending.
pub proof fn law_search_slot_by_slot<S: Fn(&IpAddress) -> Option<IpAddress>>(
    socket: SocketModel,
    after: SocketModel,
    now: int,
    source_address: S,
    request: Request,
)
    requires
        socket.ready(after, now, source_address, request),
    ensures
        ({
            let at = request.handle.index();
            &&& 0 <= at < socket.queries.len()
            &&& socket.queries[at] matches Some(query)
            &&& query.destination(socket.servers, now) matches Some(server)
            &&& call_ensures(source_address, (&server,), Some(request.ip_repr.src_addr))
            &&& query.state matches StateModel::Pending(pending)
            &&& is_own_packet(
                socket,
                pending,
                server,
                request.ip_repr,
                request.udp_repr,
                request.payload@,
            )
            &&& after.queries[at] == Some(query.prepared(socket.servers, now))
            &&& forall|i: int|
                #![trigger after.queries[i]]
                0 <= i < at ==> went_past(socket, after, now, source_address, i)
            &&& forall|i: int|
                at < i < socket.queries.len() ==> #[trigger] after.queries[i] == socket.queries[i]
        }),
{
    let at = request.handle.index();
    let query = socket.queries[at]->0;
    if let StateModel::Pending(pending) = query.state {
        let own = query.prepared(socket.servers, now).state->Pending_0;
        messages::law_request_bytes(pending);
        messages::law_request_bytes(own);
        assert(own.request() == pending.request());
    }
}

/// A waker counts as woken exactly where a call of `wake` on it can return,
/// and a string of wakers where each of them does.
pub proof fn law_woken(wakers: Seq<std::task::Waker>, at: int)
    requires
        socket::all_woken(wakers),
        0 <= at < wakers.len(),
    ensures
        call_ensures(std::task::Waker::wake, (wakers[at],), ()),
{
    assert(socket::is_woken(wakers[at]));
}

/// The values of slots are those of the queries in them, each at its place.
pub proof fn law_slot_values(slots: Seq<Option<DnsQuery>>, at: int)
    requires
        0 <= at < slots.len(),
    ensures
        slots::slot_models(slots).len() == slots.len(),
        slots::slot_models(slots)[at] == (match slots[at] {
            Some(query) => Some(query@),
            None => None,
        }),
{
}

/// A socket with other queries has these, and the settings that it had.
pub proof fn law_other_queries(socket: SocketModel, queries: Seq<Option<QueryModel>>)
    ensures
        socket.with_queries(queries).queries == queries,
        same_settings(socket.with_queries(queries), socket),
{
}

} // verus!
