//! Strings of calls on a socket, and what holds after any of them.

use vstd::prelude::*;

use crate::ip::{IpAddress, IpRepr, UdpRepr};
use crate::laws;
use crate::query::{MulticastDns, QueryIds, QueryModel};
use crate::socket;
use crate::socket::{Request, SocketModel, DEFAULT_HOP_LIMIT};
use crate::wire::{HeaderModel, Type};

verus! {

/// A call that changes a socket.
pub enum Call {
    /// `start_query`, with the bytes of the name.
    Start { text: Seq<u8>, type_: Type, ids: QueryIds },
    /// `start_query_raw`.
    StartRaw { raw_name: Seq<u8>, type_: Type, ids: QueryIds, mdns: MulticastDns },
    /// `cancel_query`, or `get_query_result` where the query has ended.
    Free { at: int },
    /// `register_query_waker`, with the waker that is kept.
    RegisterWaker { at: int, waker: std::task::Waker },
    /// `process` or `receive`.
    Receive { dst_port: u16, packet: Seq<u8> },
    /// `dispatch` or `next_request`.
    Look { now: int },
    /// `request_sent`.
    Sent { at: int, now: int },
    /// `update_servers`.
    UpdateServers { servers: Seq<IpAddress> },
    /// `set_hop_limit`.
    SetHopLimit { hop_limit: Option<u8> },
}

/// What a look at the queries can make of one of them: it leaves the query
/// alone, fails it, brings its clock up to date, or also notes a request as
/// sent.
pub open spec fn looked_slot(
    servers: Seq<IpAddress>,
    now: int,
    before: Option<QueryModel>,
    after: Option<QueryModel>,
) -> bool {
    match before {
        None => after is None,
        Some(query) => {
            ||| after == before
            ||| after == Some(QueryModel::failed())
            ||| after == Some(query.prepared(servers, now))
            ||| after == Some(query.prepared(servers, now).sent(now))
        },
    }
}

impl Call {
    /// Whether the call takes a socket to another.
    pub open spec fn takes(self, before: SocketModel, after: SocketModel) -> bool {
        match self {
            Call::Start { text, type_, ids } => after == before.started_text(text, type_, ids).0,
            Call::StartRaw { raw_name, type_, ids, mdns } => after == before.started(
                raw_name,
                type_,
                ids,
                mdns,
            ).0,
            Call::Free { at } => 0 <= at < before.queries.len() && after == before.with_queries(
                before.queries.update(at, None),
            ),
            Call::RegisterWaker { at, waker } => {
                &&& 0 <= at < before.queries.len()
                &&& before.queries[at] matches Some(query)
                &&& after == before.with_queries(
                    before.queries.update(
                        at,
                        Some(QueryModel { state: query.state, waker: Some(waker) }),
                    ),
                )
            },
            Call::Receive { dst_port, packet } => after == before.received(dst_port, packet),
            Call::Look { now } => {
                &&& after == before.with_queries(after.queries)
                &&& after.queries.len() == before.queries.len()
                &&& forall|i: int|
                    #![trigger after.queries[i]]
                    0 <= i < before.queries.len() ==> looked_slot(
                        before.servers,
                        now,
                        before.queries[i],
                        after.queries[i],
                    )
            },
            Call::Sent { at, now } => {
                &&& 0 <= at < before.queries.len()
                &&& before.queries[at] matches Some(query)
                &&& after == before.with_queries(
                    before.queries.update(at, Some(query.sent(now))),
                )
            },
            Call::UpdateServers { servers } => after == (SocketModel {
                servers: socket::kept_servers(servers),
                ..before
            }),
            Call::SetHopLimit { hop_limit } => hop_limit != Some(0u8) && after == (SocketModel {
                hop_limit,
                ..before
            }),
        }
    }
}

/// A dispatch is a look at the queries, whether or not a request was handed
/// out, and keeps the socket valid.
pub proof fn law_dispatch_is_a_look<
    S: Fn(&IpAddress) -> Option<IpAddress>,
    F: FnOnce((IpRepr, UdpRepr, &[u8])) -> Result<(), E>,
    E,
>(
    socket: SocketModel,
    after: SocketModel,
    now: int,
    source_address: S,
    emit: F,
    r: Result<(), E>,
    at: int,
    packet: (IpRepr, UdpRepr, &[u8]),
)
    requires
        after == socket.with_queries(after.queries),
        after.queries.len() == socket.queries.len(),
        socket.passed_over(after, now, source_address, socket.queries.len() as int)
            || socket.transmitted(after, now, source_address, emit, r, at, packet),
    ensures
        (Call::Look { now }).takes(socket, after),
        socket.valid() ==> after.valid(),
{
    if socket.valid() {
        law_call_keeps_valid(Call::Look { now }, socket, after);
    }
}

/// A search for a request that is due is a look at the queries, and keeps the
/// socket valid.
pub proof fn law_search_is_a_look<S: Fn(&IpAddress) -> Option<IpAddress>>(
    socket: SocketModel,
    after: SocketModel,
    now: int,
    source_address: S,
    request: Option<Request>,
)
    requires
        after == socket.with_queries(after.queries),
        after.queries.len() == socket.queries.len(),
        match request {
            None => socket.passed_over(after, now, source_address, socket.queries.len() as int),
            Some(request) => socket.ready(after, now, source_address, request),
        },
    ensures
        (Call::Look { now }).takes(socket, after),
        socket.valid() ==> after.valid(),
{
    if socket.valid() {
        law_call_keeps_valid(Call::Look { now }, socket, after);
    }
}

/// Every call keeps a socket valid.
pub proof fn law_call_keeps_valid(call: Call, before: SocketModel, after: SocketModel)
    requires
        before.valid(),
        call.takes(before, after),
    ensures
        after.valid(),
{
    match call {
        Call::Start { text, .. } => {
            laws::law_name_reads_back(text, Seq::empty());
            socket::lemma_first_where_has(before.queries, socket::is_free());
        },
        Call::StartRaw { .. } => {
            socket::lemma_first_where_has(before.queries, socket::is_free());
        },
        Call::Receive { dst_port, packet } => {
            laws::law_only_awaiting_queries_change(before, dst_port, packet);
            let awaiting = socket::is_awaiting(dst_port, HeaderModel::parse(packet).transaction_id);
            socket::lemma_first_where_has(before.queries, awaiting);
            assert forall|i: int|
                0 <= i < after.queries.len() && (#[trigger] after.queries[i]) is Some implies after.queries[i]->0.valid() by {
                if let Some(query) = before.queries[i] {
                    laws::law_query_stays_valid(query, before.servers, 0, packet);
                }
            }
        },
        Call::Look { now } => {
            assert forall|i: int|
                0 <= i < after.queries.len() && (#[trigger] after.queries[i]) is Some implies after.queries[i]->0.valid() by {
                if let Some(query) = before.queries[i] {
                    let prepared = query.prepared(before.servers, now);
                    laws::law_query_stays_valid(query, before.servers, now, Seq::empty());
                    laws::law_query_stays_valid(prepared, before.servers, now, Seq::empty());
                }
            }
        },
        Call::Sent { at, now } => {
            laws::law_query_stays_valid(
                before.queries[at]->0,
                before.servers,
                now,
                Seq::empty(),
            );
        },
        _ => {},
    }
}

/// Whether the calls take the first of the sockets to the last, each call one
/// socket to the next.
pub open spec fn is_history(states: Seq<SocketModel>, calls: Seq<Call>) -> bool {
    &&& states.len() == calls.len() + 1
    &&& forall|i: int|
        #![trigger calls[i]]
        0 <= i < calls.len() ==> calls[i].takes(states[i], states[i + 1])
}

proof fn lemma_shorter_history(states: Seq<SocketModel>, calls: Seq<Call>)
    requires
        is_history(states, calls),
        calls.len() > 0,
    ensures
        is_history(states.drop_last(), calls.drop_last()),
        calls.last().takes(states.drop_last().last(), states.last()),
{
    assert(calls.last() == calls[calls.len() - 1]);
    assert forall|i: int|
        #![trigger calls.drop_last()[i]]
        0 <= i < calls.drop_last().len() implies calls.drop_last()[i].takes(
        states.drop_last()[i],
        states.drop_last()[i + 1],
    ) by {
        assert(calls.drop_last()[i] == calls[i]);
    }
}

/// A socket that was valid is valid after any string of calls.
pub proof fn law_socket_stays_valid(states: Seq<SocketModel>, calls: Seq<Call>)
    requires
        is_history(states, calls),
        states[0].valid(),
    ensures
        states.last().valid(),
    decreases calls.len(),
{
    if calls.len() > 0 {
        lemma_shorter_history(states, calls);
        law_socket_stays_valid(states.drop_last(), calls.drop_last());
        law_call_keeps_valid(calls.last(), states.drop_last().last(), states.last());
    }
}

/// The hop limit that was set last, or that of the first socket where none
/// was.
pub open spec fn last_hop_limit(first: Option<u8>, calls: Seq<Call>) -> Option<u8>
    decreases calls.len(),
{
    if calls.len() == 0 {
        first
    } else {
        match calls.last() {
            Call::SetHopLimit { hop_limit } => hop_limit,
            _ => last_hop_limit(first, calls.drop_last()),
        }
    }
}

/// The hop limit of a socket is the one that was set last.
pub proof fn law_hop_limit_is_kept(states: Seq<SocketModel>, calls: Seq<Call>)
    requires
        is_history(states, calls),
    ensures
        states.last().hop_limit == last_hop_limit(states[0].hop_limit, calls),
    decreases calls.len(),
{
    if calls.len() > 0 {
        lemma_shorter_history(states, calls);
        law_hop_limit_is_kept(states.drop_last(), calls.drop_last());
    }
}

/// Every packet that may be sent has the hop limit that was set last, or 64
/// where none was, and that is never zero.
pub proof fn law_hop_limit_is_used<S: Fn(&IpAddress) -> Option<IpAddress>>(
    states: Seq<SocketModel>,
    calls: Seq<Call>,
    now: int,
    source_address: S,
    at: int,
    packet: (IpRepr, UdpRepr, &[u8]),
)
    requires
        is_history(states, calls),
        states[0].valid(),
        states.last().may_send(now, source_address, at, packet),
    ensures
        packet.0.hop_limit == (match last_hop_limit(states[0].hop_limit, calls) {
            Some(limit) => limit,
            None => DEFAULT_HOP_LIMIT,
        }),
        packet.0.hop_limit > 0,
{
    law_hop_limit_is_kept(states, calls);
    law_socket_stays_valid(states, calls);
}

} // verus!
