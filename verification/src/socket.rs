//! The socket: a list of servers and a table of queries.

use vstd::prelude::*;

use crate::config::{DNS_MAX_NAME_SIZE, DNS_MAX_RESULT_COUNT, DNS_MAX_SERVER_COUNT};
use crate::error::{GetQueryResultError, StartQueryError};
use crate::ip::{IpAddress, IpProtocol, IpRepr, UdpRepr, UDP_HEADER_LEN};
use crate::name;
use crate::query::{
    DnsQuery, MulticastDns, PendingModel, QueryIds, QueryModel, StateModel, DNS_PORT,
    MAX_RETRANSMIT_DELAY, MDNS_DNS_PORT, RETRANSMIT_TIMEOUT,
};
use crate::result::{QueryResult, ResultModel};
use crate::slots::QuerySlots;
use crate::storage;
use crate::time::Instant;
use crate::wire::{HeaderModel, Opcode, Packet, Rcode, Type, HEADER_LEN};

verus! {

/// The hop limit of a socket for which none was set.
pub const DEFAULT_HOP_LIMIT: u8 = 64;

/// A handle on a query.
#[derive(Clone, Copy)]
pub struct QueryHandle(usize);

impl QueryHandle {
    /// The slot that the handle stands for.
    pub closed spec fn index(self) -> int {
        self.0 as int
    }

    /// The outcome of starting a query, with the slot in place of the handle.
    pub open spec fn outcome(r: Result<QueryHandle, StartQueryError>) -> Result<
        int,
        StartQueryError,
    > {
        match r {
            Ok(handle) => Ok(handle.index()),
            Err(e) => Err(e),
        }
    }
}

/// When a socket wants to be dispatched next.
#[derive(Debug, Clone, Copy, PartialEq, Eq, Structural)]
pub enum PollAt {
    /// At once.
    Now,
    /// At a point in time.
    Time(Instant),
    /// After a packet has come in.
    Ingress,
}

/// The index of the first slot with a property, or the number of slots where
/// there is none.
pub open spec fn first_where(
    queries: Seq<Option<QueryModel>>,
    property: spec_fn(Option<QueryModel>) -> bool,
) -> int
    decreases queries.len(),
{
    if queries.len() == 0 || property(queries[0]) {
        0
    } else {
        1 + first_where(queries.drop_first(), property)
    }
}

/// The first slot with a property is the one before which no slot has it.
pub proof fn lemma_first_where(
    queries: Seq<Option<QueryModel>>,
    property: spec_fn(Option<QueryModel>) -> bool,
    at: int,
)
    requires
        0 <= at <= queries.len(),
        forall|i: int| 0 <= i < at ==> !property(#[trigger] queries[i]),
        at < queries.len() ==> property(queries[at]),
    ensures
        first_where(queries, property) == at,
    decreases queries.len(),
{
    if at > 0 {
        assert(!property(queries[0]));
        let rest = queries.drop_first();
        assert forall|i: int| 0 <= i < at - 1 implies !property(#[trigger] rest[i]) by {
            assert(rest[i] == queries[i + 1]);
        }
        lemma_first_where(rest, property, at - 1);
    }
}

/// The first slot with a property has it, where there is one, and no slot
/// before it has.
pub proof fn lemma_first_where_has(
    queries: Seq<Option<QueryModel>>,
    property: spec_fn(Option<QueryModel>) -> bool,
)
    ensures
        0 <= first_where(queries, property) <= queries.len(),
        first_where(queries, property) < queries.len() ==> property(
            queries[first_where(queries, property)],
        ),
        forall|i: int|
            0 <= i < first_where(queries, property) ==> !property(#[trigger] queries[i]),
    decreases queries.len(),
{
    if queries.len() > 0 && !property(queries[0]) {
        let rest = queries.drop_first();
        lemma_first_where_has(rest, property);
        assert forall|i: int| 0 <= i < first_where(queries, property) implies !property(
            #[trigger] queries[i],
        ) by {
            if i > 0 {
                assert(rest[i - 1] == queries[i]);
            }
        }
    }
}

/// The wakers that the queries in the slots had and have no more, in the order
/// of the slots.
pub open spec fn taken_wakers(
    before: Seq<Option<QueryModel>>,
    after: Seq<Option<QueryModel>>,
) -> Seq<std::task::Waker>
    decreases before.len(),
{
    if before.len() == 0 {
        Seq::empty()
    } else {
        let taken = taken_wakers(before.drop_last(), after.drop_last());
        match (before.last(), after.last()) {
            (Some(query), Some(next)) => match query.taken_waker(next) {
                Some(waker) => taken.push(waker),
                None => taken,
            },
            _ => taken,
        }
    }
}

proof fn lemma_taken_wakers_rest(
    before: Seq<Option<QueryModel>>,
    after: Seq<Option<QueryModel>>,
    end: int,
)
    requires
        before.len() == after.len(),
        0 <= end <= before.len(),
        forall|i: int| end <= i < before.len() ==> #[trigger] after[i] == before[i],
    ensures
        taken_wakers(before, after) == taken_wakers(before.take(end), after.take(end)),
    decreases before.len(),
{
    if end == before.len() {
        assert(before.take(end) =~= before);
        assert(after.take(end) =~= after);
    } else {
        assert(after.last() == before.last());
        assert(before.drop_last().take(end) =~= before.take(end));
        assert(after.drop_last().take(end) =~= after.take(end));
        lemma_taken_wakers_rest(before.drop_last(), after.drop_last(), end);
    }
}

/// Where the queries have the same wakers, the same wakers have been taken.
proof fn lemma_taken_wakers_same(
    before: Seq<Option<QueryModel>>,
    middle: Seq<Option<QueryModel>>,
    after: Seq<Option<QueryModel>>,
)
    requires
        before.len() == middle.len() == after.len(),
        forall|i: int|
            0 <= i < before.len() ==> match (#[trigger] middle[i], after[i]) {
                (Some(query), Some(next)) => query.waker == next.waker,
                (None, None) => true,
                _ => false,
            },
    ensures
        taken_wakers(before, middle) == taken_wakers(before, after),
    decreases before.len(),
{
    if before.len() > 0 {
        let last = before.len() - 1;
        assert(middle.last() == middle[last]);
        assert forall|i: int| 0 <= i < last implies match (
            #[trigger] middle.drop_last()[i],
            after.drop_last()[i],
        ) {
            (Some(query), Some(next)) => query.waker == next.waker,
            (None, None) => true,
            _ => false,
        } by {
            assert(middle.drop_last()[i] == middle[i]);
        }
        lemma_taken_wakers_same(before.drop_last(), middle.drop_last(), after.drop_last());
    }
}

/// Whether `wake` was called on a waker and returned.
pub open spec fn is_woken(waker: std::task::Waker) -> bool {
    call_ensures(std::task::Waker::wake, (waker,), ())
}

/// Whether `wake` was called on each of the wakers and returned.
pub open spec fn all_woken(wakers: Seq<std::task::Waker>) -> bool {
    forall|i: int| 0 <= i < wakers.len() ==> is_woken(#[trigger] wakers[i])
}

/// Whether a slot is free.
pub open spec fn is_free() -> spec_fn(Option<QueryModel>) -> bool {
    |slot: Option<QueryModel>| slot is None
}

/// Whether the query in a slot waits for responses to a port with an ID.
pub open spec fn is_awaiting(port: u16, txid: u16) -> spec_fn(Option<QueryModel>) -> bool {
    |slot: Option<QueryModel>| slot matches Some(query) && query.awaits(port, txid)
}

/// A socket as a mathematical value.
#[verifier::ext_equal]
pub struct SocketModel {
    pub servers: Seq<IpAddress>,
    pub queries: Seq<Option<QueryModel>>,
    /// Whether slots can be added.
    pub growable: bool,
    pub hop_limit: Option<u8>,
}

impl SocketModel {
    /// What holds of every socket.
    pub open spec fn valid(self) -> bool {
        &&& self.servers.len() <= DNS_MAX_SERVER_COUNT
        &&& self.hop_limit != Some(0u8)
        &&& forall|i: int|
            0 <= i < self.queries.len() ==> (#[trigger] self.queries[i] matches Some(query)
                ==> query.valid())
    }

    /// The socket with other queries.
    pub open spec fn with_queries(self, queries: Seq<Option<QueryModel>>) -> SocketModel {
        SocketModel { queries, ..self }
    }

    /// Whether a handle's slot holds a query.
    pub open spec fn holds(self, handle: QueryHandle) -> bool {
        0 <= handle.index() < self.queries.len() && self.queries[handle.index()] is Some
    }

    /// The socket after a query for a name in wire format was to be started,
    /// and the slot of the query or why there is none. The query takes the
    /// first free slot, which is added where all are taken and slots can be
    /// added; it is added even where the name then proves too long.
    pub open spec fn started(
        self,
        raw_name: Seq<u8>,
        type_: Type,
        ids: QueryIds,
        mdns: MulticastDns,
    ) -> (SocketModel, Result<int, StartQueryError>) {
        let at = first_where(self.queries, is_free());
        if at == self.queries.len() && !self.growable {
            (self, Err(StartQueryError::NoFreeSlot))
        } else {
            let room = if at == self.queries.len() {
                self.queries.push(None)
            } else {
                self.queries
            };
            if raw_name.len() > DNS_MAX_NAME_SIZE {
                (self.with_queries(room), Err(StartQueryError::NameTooLong))
            } else {
                let query = QueryModel::fresh(raw_name, type_, ids, mdns);
                (self.with_queries(room.update(at, Some(query))), Ok(at))
            }
        }
    }

    /// The same for a name given as text. A name that ends in `local` is
    /// asked of the local network.
    pub open spec fn started_text(self, text: Seq<u8>, type_: Type, ids: QueryIds) -> (
        SocketModel,
        Result<int, StartQueryError>,
    ) {
        match name::wire_name(text) {
            Err(e) => (self, Err(e)),
            Ok(raw_name) => {
                let mdns = if name::is_local(text) {
                    MulticastDns::Enabled
                } else {
                    MulticastDns::Disabled
                };
                self.started(raw_name, type_, ids, mdns)
            },
        }
    }

    /// Whether a packet is for this socket: it comes from a server, or from
    /// the port of multicast DNS.
    pub open spec fn accepts(self, src_addr: IpAddress, src_port: u16) -> bool {
        (src_port == DNS_PORT && self.servers.contains(src_addr)) || src_port == MDNS_DNS_PORT
    }

    /// Whether a message can be the response to a query: it has a header, is
    /// a response to a query, and has one question.
    pub open spec fn is_response(packet: Seq<u8>) -> bool {
        let header = HeaderModel::parse(packet);
        packet.len() >= HEADER_LEN && header.opcode == Opcode::Query && header.response
            && header.question_count == 1
    }

    /// The socket after a message to the given port was received. Where the
    /// server says that the name does not exist, every query that waits for
    /// the message fails; else the first such query is answered.
    pub open spec fn received(self, dst_port: u16, packet: Seq<u8>) -> SocketModel {
        let header = HeaderModel::parse(packet);
        let awaiting = is_awaiting(dst_port, header.transaction_id);
        let first = first_where(self.queries, awaiting);
        if !SocketModel::is_response(packet) {
            self
        } else if header.rcode == Rcode::NXDomain {
            self.with_queries(
                self.queries.map_values(
                    |slot: Option<QueryModel>|
                        if awaiting(slot) {
                            Some(QueryModel::failed())
                        } else {
                            slot
                        },
                ),
            )
        } else if first < self.queries.len() {
            self.with_queries(
                self.queries.update(first, Some(self.queries[first]->0.answered(packet))),
            )
        } else {
            self
        }
    }

    /// When the query in a slot owes its next request, where it is pending.
    pub open spec fn due_at(self, at: int) -> Option<int> {
        match self.queries[at] {
            Some(query) => match query.state {
                StateModel::Pending(pending) => Some(pending.retransmit_at),
                _ => None,
            },
            None => None,
        }
    }

    /// The server to which the query in a slot owes a request, if it does.
    pub open spec fn destination(self, at: int, now: int) -> Option<IpAddress> {
        match self.queries[at] {
            Some(query) => query.destination(self.servers, now),
            None => None,
        }
    }

    /// Whether the source address can be asked for of every server to which a
    /// request is owed.
    pub open spec fn may_ask<S: Fn(&IpAddress) -> Option<IpAddress>>(
        self,
        now: int,
        source_address: S,
    ) -> bool {
        forall|i: int|
            0 <= i < self.queries.len() ==> (#[trigger] self.destination(i, now) matches Some(
                server,
            ) ==> call_requires(source_address, (&server,)))
    }

    /// The slot after it was passed over in a dispatch: a query to whose
    /// server there is no way fails.
    pub open spec fn passed_slot(self, at: int, now: int) -> Option<QueryModel> {
        match self.queries[at] {
            Some(query) => if query.destination(self.servers, now) is Some {
                Some(QueryModel::failed())
            } else {
                Some(query.prepared(self.servers, now))
            },
            None => None,
        }
    }

    /// Whether the slots before `end` were passed over: each of their queries
    /// owed no request, or there was no source address for its server.
    pub open spec fn passed_over<S: Fn(&IpAddress) -> Option<IpAddress>>(
        self,
        after: SocketModel,
        now: int,
        source_address: S,
        end: int,
    ) -> bool {
        forall|i: int|
            #![trigger after.queries[i]]
            0 <= i < end ==> {
                &&& after.queries[i] == self.passed_slot(i, now)
                &&& self.destination(i, now) matches Some(server) ==> call_ensures(
                    source_address,
                    (&server,),
                    None,
                )
            }
    }

    /// The hop limit of the packets that the socket sends.
    pub open spec fn own_hop_limit(self) -> u8 {
        match self.hop_limit {
            Some(limit) => limit,
            None => DEFAULT_HOP_LIMIT,
        }
    }

    /// Whether headers and a payload are those of the request of a pending
    /// query.
    pub open spec fn is_request(
        self,
        ip_repr: IpRepr,
        udp_repr: UdpRepr,
        payload: Seq<u8>,
        pending: PendingModel,
        src_addr: IpAddress,
        dst_addr: IpAddress,
    ) -> bool {
        &&& ip_repr.src_addr == src_addr
        &&& ip_repr.dst_addr == dst_addr
        &&& ip_repr.next_header == IpProtocol::Udp
        &&& ip_repr.payload_len == UDP_HEADER_LEN + pending.request().len()
        &&& ip_repr.hop_limit == self.own_hop_limit()
        &&& udp_repr.src_port == pending.port
        &&& udp_repr.dst_port == pending.dst_port()
        &&& payload == pending.request()
    }

    /// Whether a dispatch found the request of the query in a slot: the slots
    /// before it were passed over, and those after it were left alone.
    pub open spec fn found<S: Fn(&IpAddress) -> Option<IpAddress>>(
        self,
        after: SocketModel,
        now: int,
        source_address: S,
        at: int,
        ip_repr: IpRepr,
        udp_repr: UdpRepr,
        payload: Seq<u8>,
    ) -> bool {
        &&& 0 <= at < self.queries.len()
        &&& self.passed_over(after, now, source_address, at)
        &&& forall|i: int|
            at < i < self.queries.len() ==> #[trigger] after.queries[i] == self.queries[i]
        &&& self.destination(at, now) matches Some(server)
        &&& call_ensures(source_address, (&server,), Some(ip_repr.src_addr))
        &&& self.queries[at]->0.prepared(self.servers, now).state matches StateModel::Pending(
            pending,
        )
        &&& self.is_request(ip_repr, udp_repr, payload, pending, ip_repr.src_addr, server)
    }

    /// Whether a packet may be sent for the query in a slot: it is the request
    /// that the query owes, and no query in a slot before it owes a request
    /// for which there is a source address.
    pub open spec fn may_send<S: Fn(&IpAddress) -> Option<IpAddress>>(
        self,
        now: int,
        source_address: S,
        at: int,
        packet: (IpRepr, UdpRepr, &[u8]),
    ) -> bool {
        &&& 0 <= at < self.queries.len()
        &&& forall|i: int|
            0 <= i < at ==> (#[trigger] self.destination(i, now) matches Some(server)
                ==> call_ensures(source_address, (&server,), None))
        &&& self.destination(at, now) matches Some(server)
        &&& call_ensures(source_address, (&server,), Some(packet.0.src_addr))
        &&& self.queries[at]->0.prepared(self.servers, now).state matches StateModel::Pending(
            pending,
        )
        &&& self.is_request(packet.0, packet.1, packet.2@, pending, packet.0.src_addr, server)
    }

    /// Whether a request is that of the first query that owes one and can send
    /// it, and what became of the queries.
    pub open spec fn ready<S: Fn(&IpAddress) -> Option<IpAddress>>(
        self,
        after: SocketModel,
        now: int,
        source_address: S,
        request: Request,
    ) -> bool {
        let at = request.handle.index();
        &&& self.found(
            after,
            now,
            source_address,
            at,
            request.ip_repr,
            request.udp_repr,
            request.payload@,
        )
        &&& after.queries[at] == Some(self.queries[at]->0.prepared(self.servers, now))
    }

    /// Whether a dispatch handed out the request of the query in a slot, and
    /// what became of the queries: the query notes the request where handing
    /// it out succeeded.
    pub open spec fn transmitted<
        S: Fn(&IpAddress) -> Option<IpAddress>,
        F: FnOnce((IpRepr, UdpRepr, &[u8])) -> Result<(), E>,
        E,
    >(
        self,
        after: SocketModel,
        now: int,
        source_address: S,
        emit: F,
        r: Result<(), E>,
        at: int,
        packet: (IpRepr, UdpRepr, &[u8]),
    ) -> bool {
        let prepared = self.queries[at]->0.prepared(self.servers, now);
        &&& self.found(after, now, source_address, at, packet.0, packet.1, packet.2@)
        &&& call_ensures(emit, (packet,), r)
        &&& after.queries[at] == Some(
            if r is Ok {
                prepared.sent(now)
            } else {
                prepared
            },
        )
    }
}

/// A request to be sent, and the query that it belongs to.
pub struct Request {
    pub handle: QueryHandle,
    pub ip_repr: IpRepr,
    pub udp_repr: UdpRepr,
    pub payload: Vec<u8>,
}

/// Wakes every waker, from the first to the last.
fn wake_all(wakers: Vec<std::task::Waker>)
    ensures
        all_woken(wakers@),
{
    let ghost all = wakers@;
    let ghost mut done: int = 0;
    let mut left = wakers;
    assert(left@ =~= all.skip(0));
    while left.len() > 0
        invariant
            0 <= done <= all.len(),
            left@ == all.skip(done),
            all_woken(all.take(done)),
        decreases left@.len(),
    {
        left.remove(0).wake();
        proof {
            assert forall|i: int| 0 <= i < done + 1 implies is_woken(
                #[trigger] all.take(done + 1)[i],
            ) by {
                if i < done {
                    assert(all.take(done)[i] == all[i]);
                }
            }
            done = done + 1;
            assert(left@ =~= all.skip(done));
        }
    }
    assert(all.take(done) =~= all);
}

/// A Domain Name System socket.
#[derive(Debug)]
pub struct Socket<'a> {
    servers: heapless::Vec<IpAddress, DNS_MAX_SERVER_COUNT>,
    queries: QuerySlots<'a>,
    hop_limit: HopLimit,
}

/// The time-to-live (IPv4) or hop limit (IPv6) value used in outgoing packets,
/// where one was set. It is never zero.
#[derive(Debug)]
struct HopLimit {
    limit: Option<u8>,
}

impl HopLimit {
    #[verifier::type_invariant]
    spec fn not_zero(&self) -> bool {
        self.limit != Some(0u8)
    }
}

impl<'a> View for Socket<'a> {
    type V = SocketModel;

    closed spec fn view(&self) -> SocketModel {
        SocketModel {
            servers: storage::server_addresses(self.servers),
            queries: self.queries@,
            growable: self.queries.growable(),
            hop_limit: self.hop_limit.limit,
        }
    }
}

/// The servers that a socket keeps of a list: the first ones.
pub open spec fn kept_servers(servers: Seq<IpAddress>) -> Seq<IpAddress> {
    if servers.len() > DNS_MAX_SERVER_COUNT {
        servers.take(DNS_MAX_SERVER_COUNT as int)
    } else {
        servers
    }
}

/// Keeps the first servers of a list, as many as a socket has room for.
fn keep_servers(servers: &[IpAddress]) -> (r: heapless::Vec<IpAddress, DNS_MAX_SERVER_COUNT>)
    ensures
        storage::server_addresses(r) == kept_servers(servers@),
{
    let kept = if servers.len() > DNS_MAX_SERVER_COUNT {
        vstd::slice::slice_subrange(servers, 0, DNS_MAX_SERVER_COUNT)
    } else {
        servers
    };
    assert(kept@ =~= kept_servers(servers@));
    storage::servers_from_slice(kept).unwrap()
}

impl<'a> Socket<'a> {
    /// Creates a DNS socket.
    ///
    /// Truncates the server list if it holds more than `DNS_MAX_SERVER_COUNT`
    /// servers.
    pub fn new(servers: &[IpAddress], queries: QuerySlots<'a>) -> (socket: Socket<'a>)
        ensures
            socket@ == (SocketModel {
                servers: kept_servers(servers@),
                queries: queries@,
                growable: queries.growable(),
                hop_limit: None,
            }),
    {
        Socket { servers: keep_servers(servers), queries, hop_limit: HopLimit { limit: None } }
    }

    /// Updates the list of DNS servers; replaces all existing servers.
    ///
    /// Truncates the server list if it holds more than `DNS_MAX_SERVER_COUNT`
    /// servers.
    pub fn update_servers(&mut self, servers: &[IpAddress])
        ensures
            final(self)@ == (SocketModel { servers: kept_servers(servers@), ..old(self)@ }),
    {
        self.servers = keep_servers(servers);
    }

    /// Returns the time-to-live (IPv4) or hop limit (IPv6) value used in
    /// outgoing packets.
    pub fn hop_limit(&self) -> (limit: Option<u8>)
        ensures
            limit == self@.hop_limit,
            limit != Some(0u8),
    {
        proof {
            use_type_invariant(&self.hop_limit);
        }
        self.hop_limit.limit
    }

    /// Sets the time-to-live (IPv4) or hop limit (IPv6) value used in outgoing
    /// packets. Without one, the value is 64. It must not be zero.
    pub fn set_hop_limit(&mut self, hop_limit: Option<u8>)
        requires
            hop_limit != Some(0u8),
        ensures
            final(self)@ == (SocketModel { hop_limit, ..old(self)@ }),
    {
        self.hop_limit = HopLimit { limit: hop_limit };
    }

    /// Finds the first free slot, or adds one where slots can be added.
    fn find_free_query(&mut self) -> (r: Option<QueryHandle>)
        ensures
            ({
                let before = old(self)@;
                let at = first_where(before.queries, is_free());
                if at < before.queries.len() {
                    r matches Some(handle) && handle.index() == at && final(self)@ == before
                } else if before.growable {
                    r matches Some(handle) && handle.index() == at && final(self)@
                        == before.with_queries(before.queries.push(None))
                } else {
                    r is None && final(self)@ == before
                }
            }),
    {
        let mut i: usize = 0;
        while i < self.queries.len()
            invariant
                i <= self@.queries.len(),
                *self == *old(self),
                forall|j: int| 0 <= j < i ==> !is_free()(#[trigger] self@.queries[j]),
            decreases self@.queries.len() - i,
        {
            if self.queries.get(i).is_none() {
                proof {
                    lemma_first_where(self@.queries, is_free(), i as int);
                }
                return Some(QueryHandle(i));
            }
            i = i + 1;
        }
        proof {
            lemma_first_where(self@.queries, is_free(), i as int);
        }
        if self.queries.grow() {
            Some(QueryHandle(i))
        } else {
            None
        }
    }

    /// Starts a query.
    ///
    /// `name` is specified in human-friendly format, such as
    /// `"rust-lang.org"`. It accepts names both with and without trailing dot,
    /// and they're treated the same (there's no support for DNS search path).
    pub fn start_query(&mut self, ids: QueryIds, name: &str, query_type: Type) -> (r: Result<
        QueryHandle,
        StartQueryError,
    >)
        ensures
            (final(self)@, QueryHandle::outcome(r)) == old(self)@.started_text(
                vstd::utf8::encode_utf8(name@),
                query_type,
                ids,
            ),
    {
        match name::encode_text(name.as_bytes()) {
            Err(e) => Err(e),
            Ok((raw_name, local)) => {
                let mdns = if local {
                    MulticastDns::Enabled
                } else {
                    MulticastDns::Disabled
                };
                self.start_query_raw(ids, storage::name_as_slice(&raw_name), query_type, mdns)
            },
        }
    }

    /// Starts a query with a raw (wire-format) DNS name, such as
    /// `b"\\x09rust-lang\\x03org\\x00"`.
    ///
    /// You probably want to use [`Socket::start_query`] instead.
    pub fn start_query_raw(
        &mut self,
        ids: QueryIds,
        raw_name: &[u8],
        query_type: Type,
        mdns: MulticastDns,
    ) -> (r: Result<QueryHandle, StartQueryError>)
        ensures
            (final(self)@, QueryHandle::outcome(r)) == old(self)@.started(
                raw_name@,
                query_type,
                ids,
                mdns,
            ),
    {
        proof {
            lemma_first_where_has(self@.queries, is_free());
        }
        let handle = match self.find_free_query() {
            Some(handle) => handle,
            None => {
                return Err(StartQueryError::NoFreeSlot);
            },
        };
        match DnsQuery::start(raw_name, query_type, ids, mdns) {
            Err(_) => Err(StartQueryError::NameTooLong),
            Ok(query) => {
                let slot = self.queries.get_mut(handle.0);
                *slot = Some(query);
                Ok(handle)
            },
        }
    }

    /// Gets the result of a query.
    ///
    /// If the query is completed, the query slot is automatically freed. The
    /// handle's slot must hold a query.
    pub fn get_query_result(&mut self, handle: QueryHandle) -> (r: Result<
        heapless::Vec<QueryResult, DNS_MAX_RESULT_COUNT>,
        GetQueryResultError,
    >)
        requires
            old(self)@.holds(handle),
        ensures
            ({
                let before = old(self)@;
                let freed = before.with_queries(before.queries.update(handle.index(), None));
                match before.queries[handle.index()]->0.state {
                    StateModel::Pending(_) => r is Err && r->Err_0 == GetQueryResultError::Pending
                        && final(self)@ == before,
                    StateModel::Completed(results) => r matches Ok(list) && ResultModel::list(
                        storage::result_items(list),
                    ) == results && final(self)@ == freed,
                    StateModel::Failure(error) => r is Err && r->Err_0 == error && final(self)@
                        == freed,
                }
            }),
    {
        let ghost before = self@.queries;
        let slot = self.queries.get_mut(handle.0);
        match slot.take() {
            None => Err(GetQueryResultError::Failed),
            Some(query) => {
                if query.is_pending() {
                    // The query is not done yet.
                    assert(before =~= before.update(handle.index(), Some(query@)));
                    *slot = Some(query);
                    Err(GetQueryResultError::Pending)
                } else {
                    // The slot stays free for recycling.
                    query.into_result()
                }
            },
        }
    }

    /// Cancels a query, freeing the slot. The handle's slot must hold a query.
    pub fn cancel_query(&mut self, handle: QueryHandle)
        requires
            old(self)@.holds(handle),
        ensures
            final(self)@ == old(self)@.with_queries(
                old(self)@.queries.update(handle.index(), None),
            ),
    {
        let slot = self.queries.get_mut(handle.0);
        *slot = None;
    }

    /// Assigns a waker to a query slot, in place of the one before.
    ///
    /// The waker will be woken when the query completes, either successfully
    /// or failed. The handle's slot must hold a query.
    pub fn register_query_waker(&mut self, handle: QueryHandle, waker: &std::task::Waker)
        requires
            old(self)@.holds(handle),
        ensures
            exists|registered: std::task::Waker|
                cloned(*waker, registered) && final(self)@ == old(self)@.with_queries(
                    old(self)@.queries.update(
                        handle.index(),
                        Some(
                            QueryModel {
                                state: old(self)@.queries[handle.index()]->0.state,
                                waker: Some(registered),
                            },
                        ),
                    ),
                ),
    {
        let slot = self.queries.get_mut(handle.0);
        match slot {
            Some(query) => query.register_waker(waker),
            None => {},
        }
        proof {
            let registered = self@.queries[handle.index()]->0.waker->0;
            assert(cloned(*waker, registered));
        }
    }

    /// Whether a packet with these headers is for this socket.
    pub fn accepts(&self, ip_repr: &IpRepr, udp_repr: &UdpRepr) -> (r: bool)
        ensures
            r == self@.accepts(ip_repr.src_addr, udp_repr.src_port),
    {
        if udp_repr.src_port == MDNS_DNS_PORT {
            return true;
        }
        if udp_repr.src_port != DNS_PORT {
            return false;
        }
        let servers = storage::servers_as_slice(&self.servers);
        let mut i: usize = 0;
        while i < servers.len()
            invariant
                i <= servers@.len(),
                servers@ == self@.servers,
                udp_repr.src_port == DNS_PORT,
                forall|j: int| 0 <= j < i ==> servers@[j] != ip_repr.src_addr,
            decreases servers@.len() - i,
        {
            if servers[i] == ip_repr.src_addr {
                assert(self@.servers[i as int] == ip_repr.src_addr);
                return true;
            }
            i = i + 1;
        }
        false
    }

    /// Receives a packet that the socket accepts: matches it with the query
    /// that waits for it, reads the answer, and wakes the wakers of the queries
    /// that end.
    pub fn process(&mut self, ip_repr: &IpRepr, udp_repr: &UdpRepr, payload: &[u8])
        requires
            old(self)@.accepts(ip_repr.src_addr, udp_repr.src_port),
        ensures
            final(self)@ == old(self)@.received(udp_repr.dst_port, payload@),
            all_woken(taken_wakers(old(self)@.queries, final(self)@.queries)),
    {
        let woken = self.receive(udp_repr.dst_port, payload);
        wake_all(woken);
    }

    /// Receives a message to the given port, and hands out the wakers of the
    /// queries that end, to be woken.
    pub fn receive(&mut self, dst_port: u16, payload: &[u8]) -> (woken: Vec<std::task::Waker>)
        ensures
            final(self)@ == old(self)@.received(dst_port, payload@),
            woken@ == taken_wakers(old(self)@.queries, final(self)@.queries),
    {
        let mut woken: Vec<std::task::Waker> = Vec::new();
        let ghost before = self@;
        proof {
            lemma_taken_wakers_rest(before.queries, before.queries, 0);
        }
        let packet = match Packet::new_checked(payload) {
            Ok(packet) => packet,
            Err(_) => {
                return woken;
            },
        };
        if packet.opcode() != Opcode::Query {
            return woken;
        }
        if !packet.is_response() {
            return woken;
        }
        if packet.question_count() != 1 {
            return woken;
        }
        let txid: u16 = packet.transaction_id();
        let no_such_name: bool = packet.rcode() == Rcode::NXDomain;
        let ghost awaiting = is_awaiting(dst_port, txid);
        // Find the pending query
        let mut i: usize = 0;
        while i < self.queries.len()
            invariant
                packet@ == payload@,
                SocketModel::is_response(payload@),
                txid == HeaderModel::parse(payload@).transaction_id,
                no_such_name == (HeaderModel::parse(payload@).rcode == Rcode::NXDomain),
                before == old(self)@,
                awaiting == is_awaiting(dst_port, txid),
                i <= before.queries.len() == self@.queries.len(),
                self@ == before.with_queries(self@.queries),
                woken@ == taken_wakers(
                    before.queries.take(i as int),
                    self@.queries.take(i as int),
                ),
                forall|j: int|
                    0 <= j < i ==> #[trigger] self@.queries[j] == (if awaiting(
                        before.queries[j],
                    ) {
                        Some(QueryModel::failed())
                    } else {
                        before.queries[j]
                    }),
                !no_such_name ==> forall|j: int|
                    0 <= j < i ==> !awaiting(#[trigger] before.queries[j]),
                forall|j: int|
                    i <= j < before.queries.len() ==> #[trigger] self@.queries[j]
                        == before.queries[j],
            decreases before.queries.len() - i,
        {
            let ghost here = self@.queries;
            let mut answered: bool = false;
            let slot = self.queries.get_mut(i);
            let taken = match slot {
                Some(query) => {
                    if query.awaits(dst_port, txid) {
                        if no_such_name {
                            query.fail()
                        } else {
                            answered = true;
                            query.answer(&packet)
                        }
                    } else {
                        None
                    }
                },
                None => None,
            };
            if let Some(waker) = taken {
                woken.push(waker);
            }
            proof {
                let k = i as int;
                assert(before.queries.take(k + 1).drop_last() =~= before.queries.take(k));
                assert(self@.queries.take(k + 1).drop_last() =~= here.take(k));
                assert(woken@ == taken_wakers(
                    before.queries.take(k + 1),
                    self@.queries.take(k + 1),
                ));
            }
            if answered {
                // The packet matched the query: stop
                proof {
                    lemma_first_where(before.queries, awaiting, i as int);
                    assert(here =~= before.queries);
                    lemma_taken_wakers_rest(before.queries, self@.queries, i + 1);
                }
                return woken;
            }
            i = i + 1;
        }
        proof {
            assert(before.queries.take(i as int) =~= before.queries);
            assert(self@.queries.take(i as int) =~= self@.queries);
            if no_such_name {
                assert(self@.queries =~= before.received(dst_port, payload@).queries);
            } else {
                lemma_first_where(before.queries, awaiting, i as int);
                assert(self@.queries =~= before.queries);
            }
        }
        woken
    }

    /// Sends at most one request that is due, and updates the queries on the
    /// way to it: those whose server ran out of time ask the next one, and
    /// those that have no server left fail, and their wakers are woken.
    ///
    /// `source_address` gives the address from which packets go to a server,
    /// if there is one. `emit` sends the packet: an IP header, a UDP header
    /// and a payload. It is called with the request of the first query that owes
    /// one and has a source address, and not at all where there is none. Where
    /// it fails, its error is handed back and the request stays due.
    pub fn dispatch<S, F, E>(&mut self, now: Instant, source_address: S, emit: F) -> (r: Result<
        (),
        E,
    >) where
        S: Fn(&IpAddress) -> Option<IpAddress>,
        F: FnOnce((IpRepr, UdpRepr, &[u8])) -> Result<(), E>,

        requires
            now.micros + RETRANSMIT_TIMEOUT <= i64::MAX,
            old(self)@.may_ask(now.micros as int, source_address),
            forall|at: int, packet: (IpRepr, UdpRepr, &[u8])| #[trigger]
                old(self)@.may_send(now.micros as int, source_address, at, packet)
                    ==> call_requires(emit, (packet,)),
        ensures
            final(self)@ == old(self)@.with_queries(final(self)@.queries),
            final(self)@.queries.len() == old(self)@.queries.len(),
            all_woken(taken_wakers(old(self)@.queries, final(self)@.queries)),
            (r is Ok && old(self)@.passed_over(
                final(self)@,
                now.micros as int,
                source_address,
                old(self)@.queries.len() as int,
            )) || exists|at: int, packet: (IpRepr, UdpRepr, &[u8])|
                old(self)@.transmitted(
                    final(self)@,
                    now.micros as int,
                    source_address,
                    emit,
                    r,
                    at,
                    packet,
                ),
    {
        let ghost before = self@;
        let ghost micros = now.micros as int;
        let (due, woken) = self.next_request(now, &source_address);
        wake_all(woken);
        let request = match due {
            Some(request) => request,
            None => {
                // Nothing to dispatch
                return Ok(());
            },
        };
        let ghost middle = self@;
        let packet = (request.ip_repr, request.udp_repr, request.payload.as_slice());
        proof {
            let at = request.handle.index();
            assert forall|i: int| 0 <= i < at implies (#[trigger] before.destination(
                i,
                micros,
            ) matches Some(server) ==> call_ensures(source_address, (&server,), None)) by {
                assert(middle.queries[i] == before.passed_slot(i, micros));
            }
            assert(before.may_send(micros, source_address, at, packet));
        }
        let r = emit(packet);
        if r.is_ok() {
            self.request_sent(request.handle, now);
        }
        proof {
            let at = request.handle.index();
            assert forall|i: int| 0 <= i < before.queries.len() && i != at implies self@.queries[i]
                == middle.queries[i] by {}
            lemma_taken_wakers_same(before.queries, middle.queries, self@.queries);
            assert(before.transmitted(
                self@,
                micros,
                source_address,
                emit,
                r,
                at,
                packet,
            ));
        }
        r
    }

    /// Finds the first request that is due and can be sent, and updates the
    /// queries on the way to it. Hands out the request, and the wakers of the
    /// queries that fail, to be woken.
    pub fn next_request<S>(&mut self, now: Instant, source_address: &S) -> (r: (
        Option<Request>,
        Vec<std::task::Waker>,
    )) where S: Fn(&IpAddress) -> Option<IpAddress>
        requires
            now.micros + RETRANSMIT_TIMEOUT <= i64::MAX,
            old(self)@.may_ask(now.micros as int, *source_address),
        ensures
            final(self)@ == old(self)@.with_queries(final(self)@.queries),
            final(self)@.queries.len() == old(self)@.queries.len(),
            r.1@ == taken_wakers(old(self)@.queries, final(self)@.queries),
            match r.0 {
                None => old(self)@.passed_over(
                    final(self)@,
                    now.micros as int,
                    *source_address,
                    old(self)@.queries.len() as int,
                ),
                Some(request) => old(self)@.ready(
                    final(self)@,
                    now.micros as int,
                    *source_address,
                    request,
                ),
            },
    {
        let hop_limit: u8 = match self.hop_limit.limit {
            Some(limit) => limit,
            None => DEFAULT_HOP_LIMIT,
        };
        let mut woken: Vec<std::task::Waker> = Vec::new();
        let ghost before = self@;
        let ghost micros = now.micros as int;
        let mut i: usize = 0;
        while i < self.queries.len()
            invariant
                now.micros + RETRANSMIT_TIMEOUT <= i64::MAX,
                before.may_ask(micros, *source_address),
                micros == now.micros,
                before == old(self)@,
                hop_limit == before.own_hop_limit(),
                i <= before.queries.len() == self@.queries.len(),
                self@ == before.with_queries(self@.queries),
                woken@ == taken_wakers(
                    before.queries.take(i as int),
                    self@.queries.take(i as int),
                ),
                before.passed_over(self@, micros, *source_address, i as int),
                forall|j: int|
                    i <= j < before.queries.len() ==> #[trigger] self@.queries[j]
                        == before.queries[j],
            decreases before.queries.len() - i,
        {
            let ghost here = self@.queries;
            let mut due: Option<Request> = None;
            let servers = storage::servers_as_slice(&self.servers);
            let slot = self.queries.get_mut(i);
            let taken = match slot {
                Some(query) => {
                    let (destination, failed) = query.prepare(servers, now);
                    match destination {
                        None => failed,
                        Some(dst_addr) => {
                            assert(before.destination(i as int, micros) == Some(dst_addr));
                            match source_address(&dst_addr) {
                                None => query.fail(),
                                Some(src_addr) => {
                                    if let Some((udp_repr, payload)) = query.request() {
                                        let ip_repr = IpRepr::new(
                                            src_addr,
                                            dst_addr,
                                            IpProtocol::Udp,
                                            udp_repr.header_len() + payload.len(),
                                            hop_limit,
                                        );
                                        due = Some(
                                            Request {
                                                handle: QueryHandle(i),
                                                ip_repr,
                                                udp_repr,
                                                payload,
                                            },
                                        );
                                    }
                                    None
                                },
                            }
                        },
                    }
                },
                None => None,
            };
            if let Some(waker) = taken {
                woken.push(waker);
            }
            proof {
                let k = i as int;
                assert(before.queries.take(k + 1).drop_last() =~= before.queries.take(k));
                assert(self@.queries.take(k + 1).drop_last() =~= here.take(k));
                assert(woken@ == taken_wakers(
                    before.queries.take(k + 1),
                    self@.queries.take(k + 1),
                ));
            }
            if due.is_some() {
                proof {
                    lemma_taken_wakers_rest(before.queries, self@.queries, i + 1);
                }
                return (due, woken);
            }
            i = i + 1;
        }
        proof {
            assert(before.queries.take(i as int) =~= before.queries);
            assert(self@.queries.take(i as int) =~= self@.queries);
        }
        (None, woken)
    }

    /// Notes that the request of a query was sent. The handle's slot must hold
    /// a query.
    pub fn request_sent(&mut self, handle: QueryHandle, now: Instant)
        requires
            old(self)@.holds(handle),
            now.micros + MAX_RETRANSMIT_DELAY <= i64::MAX,
        ensures
            final(self)@ == old(self)@.with_queries(
                old(self)@.queries.update(
                    handle.index(),
                    Some(old(self)@.queries[handle.index()]->0.sent(now.micros as int)),
                ),
            ),
    {
        let slot = self.queries.get_mut(handle.0);
        if let Some(query) = slot {
            query.mark_sent(now);
        }
    }

    /// When the socket wants to be dispatched next: when the first request of
    /// a pending query is due.
    pub fn poll_at(&self) -> (r: PollAt)
        ensures
            match r {
                PollAt::Now => false,
                PollAt::Time(at) => {
                    &&& exists|i: int| 0 <= i < self@.queries.len() && self@.due_at(i) == Some(
                        at.micros as int,
                    )
                    &&& forall|i: int|
                        0 <= i < self@.queries.len() ==> (#[trigger] self@.due_at(i) matches Some(
                            due,
                        ) ==> at.micros <= due)
                },
                PollAt::Ingress => forall|i: int|
                    0 <= i < self@.queries.len() ==> #[trigger] self@.due_at(i) is None,
            },
    {
        let mut first: Option<Instant> = None;
        let mut i: usize = 0;
        while i < self.queries.len()
            invariant
                i <= self@.queries.len(),
                match first {
                    Some(at) => {
                        &&& exists|j: int| 0 <= j < i && self@.due_at(j) == Some(at.micros as int)
                        &&& forall|j: int|
                            0 <= j < i ==> (#[trigger] self@.due_at(j) matches Some(due)
                                ==> at.micros <= due)
                    },
                    None => forall|j: int| 0 <= j < i ==> #[trigger] self@.due_at(j) is None,
                },
            decreases self@.queries.len() - i,
        {
            if let Some(query) = self.queries.get(i) {
                if let Some(due) = query.due_at() {
                    assert(self@.due_at(i as int) == Some(due.micros as int));
                    match first {
                        Some(at) => {
                            if due.micros < at.micros {
                                first = Some(due);
                            }
                        },
                        None => {
                            first = Some(due);
                        },
                    }
                }
            }
            i = i + 1;
        }
        match first {
            Some(at) => PollAt::Time(at),
            None => PollAt::Ingress,
        }
    }
}

} // verus!
